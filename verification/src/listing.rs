//! The `find` and `ls` tools: what they ask for, and how they report what was
//! found.

use crate::cbor::{
    argument_text, entry_models, first_integer, first_text, lemma_table_model, make_text_entry,
    optional_argument_int, optional_argument_text, text_entry, CborInteger, CborModel, CborValue,
};
use crate::text::{
    decimal, join, lemma_text_lt_irreflexive, lemma_text_lt_total, lemma_text_lt_transitive,
    push_decimal, str_lt, text_lt, to_chars, views,
};
use crate::truncate::{fits, head_truncated, truncate_head_plain, unlines};
use vstd::prelude::*;

verus! {

/// Most results of a search, unless asked otherwise.
pub const DEFAULT_FIND_LIMIT: u64 = 1000;

/// Most entries of a directory listing, unless asked otherwise.
pub const DEFAULT_LS_LIMIT: u64 = 500;

// ---------------------------------------------------------------------------
// Order
// ---------------------------------------------------------------------------

/// A text in lower case.
pub uninterp spec fn lowercase(s: Seq<char>) -> Seq<char>;

/// The standard library's `str::to_lowercase`. The result is a function of the
/// text.
#[verifier::external_body]
fn to_lower(s: &str) -> (r: String)
    ensures
        r@ == lowercase(s@),
{
    s.to_lowercase()
}

/// Whether `a` comes before `b`, letter case aside.
pub open spec fn before(a: Seq<char>, b: Seq<char>) -> bool {
    text_lt(lowercase(a), lowercase(b))
}

/// `sorted` with `x` put behind everything that does not come after it.
pub open spec fn insert_sorted(sorted: Seq<Seq<char>>, x: Seq<char>) -> Seq<Seq<char>>
    decreases sorted.len(),
{
    if sorted.len() == 0 || !before(x, sorted.last()) {
        sorted.push(x)
    } else {
        insert_sorted(sorted.drop_last(), x).push(sorted.last())
    }
}

/// The entries in their order, letter case aside; entries that differ in letter
/// case only keep their order.
pub open spec fn sorted_entries(entries: Seq<Seq<char>>) -> Seq<Seq<char>>
    decreases entries.len(),
{
    if entries.len() == 0 {
        Seq::empty()
    } else {
        insert_sorted(sorted_entries(entries.drop_last()), entries.last())
    }
}

proof fn lemma_insert_at(sorted: Seq<Seq<char>>, x: Seq<char>, k: int)
    requires
        0 <= k <= sorted.len(),
        forall|j: int| k <= j < sorted.len() ==> before(x, #[trigger] sorted[j]),
        k > 0 ==> !before(x, sorted[k - 1]),
    ensures
        insert_sorted(sorted, x) == sorted.insert(k, x),
    decreases sorted.len(),
{
    if k < sorted.len() {
        let front = sorted.drop_last();
        assert(before(x, sorted[sorted.len() - 1]));
        assert forall|j: int| k <= j < front.len() implies before(x, #[trigger] front[j]) by {
            assert(front[j] == sorted[j]);
        }
        lemma_insert_at(front, x, k);
        assert(front.insert(k, x).push(sorted.last()) =~= sorted.insert(k, x));
    } else {
        assert(sorted.insert(k, x) =~= sorted.push(x));
    }
}

/// Sorts the entries, letter case aside.
pub fn sort_entries(entries: &[String]) -> (out: Vec<String>)
    ensures
        views(out@) == sorted_entries(views(entries@)),
{
    let ghost all = views(entries@);
    let mut out: Vec<String> = Vec::new();
    let mut keys: Vec<String> = Vec::new();
    let mut i: usize = 0;
    proof {
        assert(all.take(0) =~= Seq::<Seq<char>>::empty());
        assert(views(out@) =~= Seq::<Seq<char>>::empty());
    }
    while i < entries.len()
        invariant
            i <= entries@.len(),
            all == views(entries@),
            views(out@) == sorted_entries(all.take(i as int)),
            keys@.len() == out@.len(),
            forall|j: int| 0 <= j < keys@.len() ==> (#[trigger] keys@[j])@ == lowercase(out@[j]@),
        decreases entries@.len() - i,
    {
        let entry = &entries[i];
        let key = to_lower(entry.as_str());
        let mut k: usize = out.len();
        let ghost done = views(out@);
        let ghost old_keys = keys@;
        let ghost old_out = out@;
        while k > 0 && str_lt(key.as_str(), keys[k - 1].as_str())
            invariant
                k <= out@.len(),
                keys@.len() == out@.len(),
                out@ == old_out,
                keys@ == old_keys,
                done == views(out@),
                key@ == lowercase(entry@),
                forall|j: int|
                    0 <= j < keys@.len() ==> (#[trigger] keys@[j])@ == lowercase(out@[j]@),
                forall|j: int| k <= j < done.len() ==> before(entry@, #[trigger] done[j]),
            decreases k,
        {
            k = k - 1;
            proof {
                assert(keys@[k as int]@ == lowercase(out@[k as int]@));
                assert(done[k as int] == out@[k as int]@);
            }
        }
        proof {
            if k > 0 {
                assert(keys@[k - 1]@ == lowercase(out@[k - 1]@));
                assert(done[k - 1] == out@[k - 1]@);
            }
            lemma_insert_at(done, entry@, k as int);
            assert(all.take(i + 1).drop_last() =~= all.take(i as int));
            assert(all.take(i + 1).last() == entry@);
        }
        out.insert(k, entry.clone());
        keys.insert(k, key);
        proof {
            assert(views(out@) =~= done.insert(k as int, entry@));
            assert forall|j: int| 0 <= j < keys@.len() implies (#[trigger] keys@[j])@ == lowercase(
                out@[j]@,
            ) by {
                if j < k {
                    assert(keys@[j] == old_keys[j]);
                    assert(out@[j] == old_out[j]);
                } else if j > k {
                    assert(keys@[j] == old_keys[j - 1]);
                    assert(out@[j] == old_out[j - 1]);
                }
            }
        }
        i = i + 1;
    }
    proof {
        assert(all.take(i as int) =~= all);
    }
    out
}

/// Whether nothing comes after something that it comes before.
pub open spec fn in_order(s: Seq<Seq<char>>) -> bool {
    forall|i: int, j: int|
        0 <= i < j < s.len() ==> !before(#[trigger] s[j], #[trigger] s[i])
}

proof fn lemma_insert_ordered(sorted: Seq<Seq<char>>, x: Seq<char>)
    requires
        in_order(sorted),
    ensures
        in_order(insert_sorted(sorted, x)),
        insert_sorted(sorted, x).to_multiset() == sorted.to_multiset().insert(x),
        forall|y: Seq<char>|
            #![trigger before(y, x)]
            (forall|i: int|
                0 <= i < sorted.len() ==> !before(y, #[trigger] sorted[i])) && !before(y, x)
                ==> (forall|i: int|
                0 <= i < insert_sorted(sorted, x).len() ==> !before(
                    y,
                    #[trigger] insert_sorted(sorted, x)[i],
                )),
    decreases sorted.len(),
{
    broadcast use vstd::seq_lib::group_to_multiset_ensures;

    let out = insert_sorted(sorted, x);
    if sorted.len() == 0 || !before(x, sorted.last()) {
        assert forall|i: int, j: int| 0 <= i < j < out.len() implies !before(
            #[trigger] out[j],
            #[trigger] out[i],
        ) by {
            if j == sorted.len() {
                if before(x, sorted[i]) {
                    if i < sorted.len() - 1 {
                        assert(!before(sorted[sorted.len() - 1], sorted[i]));
                        lemma_before_chain(x, sorted[i], sorted.last());
                    }
                }
            }
        }
        assert forall|y: Seq<char>|
            #![trigger before(y, x)]
            (forall|i: int| 0 <= i < sorted.len() ==> !before(y, #[trigger] sorted[i])) && !before(
                y,
                x,
            ) implies (forall|i: int| 0 <= i < out.len() ==> !before(y, #[trigger] out[i])) by {
            assert forall|i: int| 0 <= i < out.len() implies !before(y, #[trigger] out[i]) by {
                if i < sorted.len() {
                    assert(out[i] == sorted[i]);
                }
            }
        }
    } else {
        let front = sorted.drop_last();
        let last = sorted.last();
        assert(in_order(front)) by {
            assert forall|i: int, j: int| 0 <= i < j < front.len() implies !before(
                #[trigger] front[j],
                #[trigger] front[i],
            ) by {
                assert(front[i] == sorted[i]);
                assert(front[j] == sorted[j]);
            }
        }
        lemma_insert_ordered(front, x);
        let inner = insert_sorted(front, x);
        assert(sorted =~= front.push(last));
        assert(front.to_multiset().insert(x).insert(last) =~= front.to_multiset().insert(
            last,
        ).insert(x));
        assert forall|i: int| 0 <= i < front.len() implies !before(last, #[trigger] front[i]) by {
            assert(front[i] == sorted[i]);
            assert(sorted[sorted.len() - 1] == last);
        }
        if before(last, x) {
            lemma_text_lt_transitive(lowercase(last), lowercase(x), lowercase(last));
            lemma_text_lt_irreflexive(lowercase(last));
        }
        assert(!before(last, x));
        assert forall|i: int, j: int| 0 <= i < j < out.len() implies !before(
            #[trigger] out[j],
            #[trigger] out[i],
        ) by {
            if j < inner.len() {
                assert(out[i] == inner[i]);
                assert(out[j] == inner[j]);
            } else {
                assert(out[i] == inner[i]);
                assert(!before(last, inner[i]));
            }
        }
        assert forall|y: Seq<char>|
            #![trigger before(y, x)]
            (forall|i: int| 0 <= i < sorted.len() ==> !before(y, #[trigger] sorted[i])) && !before(
                y,
                x,
            ) implies (forall|i: int| 0 <= i < out.len() ==> !before(y, #[trigger] out[i])) by {
            assert forall|i: int| 0 <= i < front.len() implies !before(y, #[trigger] front[i]) by {
                assert(front[i] == sorted[i]);
            }
            assert forall|i: int| 0 <= i < out.len() implies !before(y, #[trigger] out[i]) by {
                if i < inner.len() {
                    assert(out[i] == inner[i]);
                } else {
                    assert(out[i] == sorted[sorted.len() - 1]);
                }
            }
        }
    }
}

/// Where `x` comes before `a` and `b` does not come before `a`, `x` comes before
/// `b`.
proof fn lemma_before_chain(x: Seq<char>, a: Seq<char>, b: Seq<char>)
    requires
        before(x, a),
        !before(b, a),
    ensures
        before(x, b),
{
    lemma_text_lt_total(lowercase(a), lowercase(b));
    if before(a, b) {
        lemma_text_lt_transitive(lowercase(x), lowercase(a), lowercase(b));
    }
}

/// Sorting puts the entries in order and neither loses nor adds one.
pub proof fn law_sorting_orders_entries(entries: Seq<Seq<char>>)
    ensures
        in_order(sorted_entries(entries)),
        sorted_entries(entries).to_multiset() == entries.to_multiset(),
    decreases entries.len(),
{
    broadcast use vstd::seq_lib::group_to_multiset_ensures;

    if entries.len() > 0 {
        let front = entries.drop_last();
        law_sorting_orders_entries(front);
        lemma_insert_ordered(sorted_entries(front), entries.last());
        assert(entries =~= front.push(entries.last()));
    }
}

// ---------------------------------------------------------------------------
// Output
// ---------------------------------------------------------------------------

/// The entries that are shown under a limit.
pub open spec fn displayed(entries: Seq<Seq<char>>, limit: nat) -> Seq<Seq<char>> {
    if limit < entries.len() {
        entries.take(limit as int)
    } else {
        entries
    }
}

/// The notes at the end of the output.
pub open spec fn notices(
    limit_reached: bool,
    limit_notice: Seq<char>,
    truncated: bool,
) -> Seq<Seq<char>> {
    let first = if limit_reached {
        seq![limit_notice]
    } else {
        Seq::empty()
    };
    let second = if truncated {
        seq!["50KB/2000 line output limit reached."@]
    } else {
        Seq::empty()
    };
    first + second
}

/// The output for sorted entries: as many as the limit allows, one per line, cut
/// at the output limits, with notes on what was left out.
pub open spec fn output_text(
    entries: Seq<Seq<char>>,
    limit: nat,
    limit_notice: Seq<char>,
) -> Seq<char> {
    let text = unlines(displayed(entries, limit));
    let t = head_truncated(text);
    let notes = notices(entries.len() > limit, limit_notice, t.was_truncated);
    t.content + if notes.len() == 0 {
        Seq::empty()
    } else {
        "\n\n["@ + join(notes, seq![' ']) + "]"@
    }
}

/// The output for sorted entries.
pub fn write_output(entries: &[String], limit: u64, limit_notice: &str) -> (s: String)
    ensures
        s@ == output_text(views(entries@), limit as nat, limit_notice@),
{
    let ghost all = views(entries@);
    let count: usize = if limit < entries.len() as u64 {
        limit as usize
    } else {
        entries.len()
    };
    let ghost shown = displayed(all, limit as nat);
    proof {
        assert(shown =~= all.take(count as int));
    }
    let mut text = String::new();
    let mut i: usize = 0;
    proof {
        assert(shown.take(0) =~= Seq::<Seq<char>>::empty());
        assert(text@ =~= unlines(shown.take(0)));
    }
    while i < count
        invariant
            i <= count <= entries@.len(),
            all == views(entries@),
            shown == all.take(count as int),
            text@ == unlines(shown.take(i as int)),
        decreases count - i,
    {
        let ghost done = text@;
        if i > 0 {
            text.push('\n');
        }
        text.append(entries[i].as_str());
        proof {
            let part = entries@[i as int]@;
            assert(shown[i as int] == part);
            assert(shown.take(i + 1).drop_last() =~= shown.take(i as int));
            assert(shown.take(i + 1).last() == part);
            if i > 0 {
                assert(text@ =~= done + seq!['\n'] + part);
            } else {
                assert(text@ =~= part);
            }
        }
        i = i + 1;
    }
    proof {
        assert(shown.take(i as int) =~= shown);
    }
    let limit_reached = entries.len() > count;
    let truncated = truncate_head_plain(text.as_str());
    let was_truncated = truncated.was_truncated;
    let mut out = truncated.content;
    let ghost content = out@;
    if limit_reached || was_truncated {
        out.append("\n\n[");
        if limit_reached {
            out.append(limit_notice);
        }
        if limit_reached && was_truncated {
            out.push(' ');
        }
        if was_truncated {
            out.append("50KB/2000 line output limit reached.");
        }
        out.append("]");
        proof {
            let notes = notices(limit_reached, limit_notice@, was_truncated);
            reveal_with_fuel(join, 3);
            if limit_reached && was_truncated {
                assert(notes.drop_last() =~= seq![limit_notice@]);
                assert(notes.last() == "50KB/2000 line output limit reached."@);
                assert(join(notes, seq![' ']) =~= limit_notice@ + seq![' ']
                    + "50KB/2000 line output limit reached."@);
            } else if limit_reached {
                assert(notes =~= seq![limit_notice@]);
            } else {
                assert(notes =~= seq!["50KB/2000 line output limit reached."@]);
            }
            assert(out@ =~= content + ("\n\n["@ + join(notes, seq![' ']) + "]"@));
        }
    } else {
        proof {
            assert(out@ =~= content + Seq::<char>::empty());
        }
    }
    out
}

/// An integer entry of a table.
pub open spec fn count_entry(key: Seq<char>, n: nat) -> (CborModel, CborModel) {
    (CborModel::Text(key), CborModel::Integer(n as int))
}

fn make_count_entry(key: &str, n: usize) -> (e: (CborValue, CborValue))
    ensures
        (e.0.model(), e.1.model()) == count_entry(key@, n as nat),
{
    (CborValue::Text(key.to_owned()), CborValue::Integer(CborInteger::from_u64(n as u64)))
}

/// The limit that is asked for, at least one, or the default.
pub open spec fn limit_of(arguments: CborModel, default: u64) -> nat {
    match first_integer(arguments.entries(), "limit"@, i64::MIN as int, i64::MAX as int) {
        Some(n) => if n < 1 {
            1
        } else {
            n as nat
        },
        None => default as nat,
    }
}

fn read_limit(arguments: &CborValue, default: u64) -> (limit: u64)
    ensures
        limit == limit_of(arguments.model(), default),
{
    match optional_argument_int(arguments, "limit") {
        Some(n) => if n < 1 {
            1
        } else {
            n as u64
        },
        None => default,
    }
}

/// The path that is asked for, or the current directory.
pub open spec fn path_of(arguments: CborModel) -> Seq<char> {
    match first_text(arguments.entries(), "path"@) {
        Some(p) => p,
        None => "."@,
    }
}

fn read_path(arguments: &CborValue) -> (s: String)
    ensures
        s@ == path_of(arguments.model()),
{
    match optional_argument_text(arguments, "path") {
        Some(p) => p,
        None => ".".to_owned(),
    }
}

/// `head`, the path, a colon and the cause.
fn failure(head: &str, path: &str, cause: &str) -> (s: String)
    ensures
        s@ == head@ + path@ + ": "@ + cause@,
{
    let mut s = head.to_owned();
    s.append(path);
    s.append(": ");
    s.append(cause);
    s
}

/// Whether the path can be searched: the error where it cannot be accessed or
/// is no directory. `metadata` is what the file system says of the path.
pub open spec fn directory_error(path: Seq<char>, metadata: Result<bool, Seq<char>>) -> Option<
    Seq<char>,
> {
    match metadata {
        Err(e) => Some("failed to access "@ + path + ": "@ + e),
        Ok(false) => Some("not a directory: "@ + path),
        Ok(true) => None,
    }
}

/// The texts of an answer of the file system.
pub open spec fn answer_view<T>(r: Result<T, String>) -> Result<T, Seq<char>> {
    match r {
        Ok(v) => Ok(v),
        Err(e) => Err(e@),
    }
}

fn check_directory(path: &str, metadata: &Result<bool, String>) -> (r: Option<String>)
    ensures
        match r {
            Some(e) => directory_error(path@, answer_view(*metadata)) == Some(e@),
            None => directory_error(path@, answer_view(*metadata)) is None,
        },
{
    match metadata {
        Err(e) => Some(failure("failed to access ", path, e.as_str())),
        Ok(is_dir) => {
            if *is_dir {
                None
            } else {
                let mut s = "not a directory: ".to_owned();
                s.append(path);
                Some(s)
            }
        },
    }
}

// ---------------------------------------------------------------------------
// ls
// ---------------------------------------------------------------------------

/// One entry of a directory.
#[derive(Debug)]
pub struct LsEntry {
    pub name: String,
    pub is_dir: bool,
}

/// How an entry is shown: directories with a slash.
pub open spec fn shown_entry(e: LsEntry) -> Seq<char> {
    if e.is_dir {
        e.name@.push('/')
    } else {
        e.name@
    }
}

/// How the entries are shown.
pub open spec fn shown_entries(v: Seq<LsEntry>) -> Seq<Seq<char>> {
    Seq::new(v.len(), |i: int| shown_entry(v[i]))
}

/// The note that the entry limit was reached.
pub open spec fn ls_notice(limit: nat) -> Seq<char> {
    decimal(limit) + " entries limit reached. Use limit="@ + decimal(limit * 2) + " for more."@
}

/// The result of the listing tool.
pub open spec fn ls_result(
    arguments: CborModel,
    metadata: Result<bool, Seq<char>>,
    listing: Result<Seq<Seq<char>>, Seq<char>>,
) -> Result<CborModel, Seq<char>> {
    let path = path_of(arguments);
    let limit = limit_of(arguments, DEFAULT_LS_LIMIT);
    match directory_error(path, metadata) {
        Some(e) => Err(e),
        None => match listing {
            Err(e) => Err("failed to read "@ + path + ": "@ + e),
            Ok(entries) => Ok(
                CborModel::Table(
                    seq![
                        text_entry("path"@, path),
                        count_entry("entries"@, entries.len()),
                        text_entry(
                            "output"@,
                            if entries.len() == 0 {
                                "(empty directory)"@
                            } else {
                                output_text(sorted_entries(entries), limit, ls_notice(limit))
                            },
                        ),
                    ],
                ),
            ),
        },
    }
}

/// What the file system said about the entries.
pub open spec fn listing_view(r: Result<Vec<LsEntry>, String>) -> Result<
    Seq<Seq<char>>,
    Seq<char>,
> {
    match r {
        Ok(v) => Ok(shown_entries(v@)),
        Err(e) => Err(e@),
    }
}

fn ls_notice_text(limit: u64) -> (s: String)
    ensures
        s@ == ls_notice(limit as nat),
{
    let mut s = String::new();
    push_decimal(&mut s, limit as u128);
    s.append(" entries limit reached. Use limit=");
    push_decimal(&mut s, limit as u128 * 2);
    s.append(" for more.");
    proof {
        assert(s@ =~= ls_notice(limit as nat));
    }
    s
}

/// How the entries are shown.
fn show_entries(entries: &[LsEntry]) -> (out: Vec<String>)
    ensures
        views(out@) == shown_entries(entries@),
{
    let mut out: Vec<String> = Vec::new();
    let mut i: usize = 0;
    while i < entries.len()
        invariant
            i <= entries@.len(),
            out@.len() == i,
            forall|j: int| 0 <= j < i ==> (#[trigger] out@[j])@ == shown_entry(entries@[j]),
        decreases entries@.len() - i,
    {
        let mut display = entries[i].name.clone();
        if entries[i].is_dir {
            display.push('/');
        }
        out.push(display);
        i = i + 1;
    }
    proof {
        assert(views(out@) =~= shown_entries(entries@));
    }
    out
}

/// The result of a tool, as text or value.
pub open spec fn tool_view(r: Result<CborValue, String>) -> Result<CborModel, Seq<char>> {
    match r {
        Ok(v) => Ok(v.model()),
        Err(e) => Err(e@),
    }
}

/// The listing tool: `metadata` says whether the path is a directory, `listing`
/// what is in it.
pub fn run_ls(
    arguments: &CborValue,
    metadata: Result<bool, String>,
    listing: Result<Vec<LsEntry>, String>,
) -> (r: Result<CborValue, String>)
    ensures
        tool_view(r) == ls_result(arguments.model(), answer_view(metadata), listing_view(listing)),
{
    let path = read_path(arguments);
    let limit = read_limit(arguments, DEFAULT_LS_LIMIT);
    if let Some(e) = check_directory(path.as_str(), &metadata) {
        return Err(e);
    }
    let entries = match listing {
        Ok(entries) => entries,
        Err(e) => {
            return Err(failure("failed to read ", path.as_str(), e.as_str()));
        },
    };
    let total = entries.len();
    let ghost shown = shown_entries(entries@);
    let output = if total == 0 {
        "(empty directory)".to_owned()
    } else {
        let sorted = sort_entries(show_entries(entries.as_slice()).as_slice());
        let notice = ls_notice_text(limit);
        write_output(sorted.as_slice(), limit, notice.as_str())
    };
    let table = vec![
        make_text_entry("path", path.as_str()),
        make_count_entry("entries", total),
        make_text_entry("output", output.as_str()),
    ];
    proof {
        lemma_table_model(table);
        assert(entry_models(table@) =~= seq![
            text_entry("path"@, path@),
            count_entry("entries"@, shown.len()),
            text_entry("output"@, output@),
        ]);
    }
    Ok(CborValue::Table(table))
}

// ---------------------------------------------------------------------------
// Globs
// ---------------------------------------------------------------------------

/// globset's pattern type.
#[verifier::external_type_specification]
#[verifier::external_body]
pub struct ExGlob(globset::Glob);

/// globset's type of compiled sets of patterns.
#[verifier::external_type_specification]
#[verifier::external_body]
pub struct ExGlobSet(globset::GlobSet);

/// The text that a pattern was made from.
pub uninterp spec fn glob_pattern(g: globset::Glob) -> Seq<char>;

/// The text of the one pattern in a compiled set.
pub uninterp spec fn set_pattern(s: globset::GlobSet) -> Seq<char>;

/// Why a text is no pattern; none where it is one.
pub uninterp spec fn glob_error(pattern: Seq<char>) -> Option<Seq<char>>;

/// Why a pattern cannot be compiled; none where it can.
pub uninterp spec fn glob_set_error(pattern: Seq<char>) -> Option<Seq<char>>;

/// Whether a pattern matches a path, where `/` alone separates the parts of a path
/// and `\` escapes: globset takes both from the system that it was built for, so
/// this and the errors above are those of a Unix system.
pub uninterp spec fn glob_matches(pattern: Seq<char>, path: Seq<char>) -> bool;

/// A text with quotes and escapes, for messages.
pub uninterp spec fn quoted(s: Seq<char>) -> Seq<char>;

/// globset's `Glob::new`, with the error as its text. Both are functions of the
/// pattern's text.
#[verifier::external_body]
fn parse_glob(pattern: &str) -> (r: Result<globset::Glob, String>)
    ensures
        match r {
            Ok(g) => glob_error(pattern@) is None && glob_pattern(g) == pattern@,
            Err(e) => glob_error(pattern@) == Some(e@),
        },
{
    globset::Glob::new(pattern).map_err(|e| e.to_string())
}

/// globset's `GlobSetBuilder::build` for a builder with one pattern, with the
/// error as its text. Both are functions of the pattern's text.
#[verifier::external_body]
fn build_glob_set(glob: globset::Glob) -> (r: Result<globset::GlobSet, String>)
    ensures
        match r {
            Ok(s) => glob_set_error(glob_pattern(glob)) is None && set_pattern(s) == glob_pattern(
                glob,
            ),
            Err(e) => glob_set_error(glob_pattern(glob)) == Some(e@),
        },
{
    let mut builder = globset::GlobSetBuilder::new();
    builder.add(glob);
    builder.build().map_err(|e| e.to_string())
}

/// globset's `GlobSet::is_match`, for a set with one pattern. The result is a
/// function of the pattern's text and the path's.
#[verifier::external_body]
fn set_matches(set: &globset::GlobSet, path: &str) -> (r: bool)
    ensures
        r == glob_matches(set_pattern(*set), path@),
{
    set.is_match(path)
}

/// The standard library's debug text of a string. It is a function of the text.
#[verifier::external_body]
fn quote(s: &str) -> (r: String)
    ensures
        r@ == quoted(s@),
{
    format!("{s:?}")
}

/// The message for a pattern that cannot be used; none where it can.
pub open spec fn pattern_error(pattern: Seq<char>) -> Option<Seq<char>> {
    match glob_error(pattern) {
        Some(e) => Some("invalid glob pattern "@ + quoted(pattern) + ": "@ + e),
        None => match glob_set_error(pattern) {
            Some(e) => Some("failed to compile glob pattern "@ + quoted(pattern) + ": "@ + e),
            None => None,
        },
    }
}

/// Compiles a search pattern.
pub fn compile_find_glob(pattern: &str) -> (r: Result<globset::GlobSet, String>)
    ensures
        match r {
            Ok(s) => pattern_error(pattern@) is None && set_pattern(s) == pattern@,
            Err(e) => pattern_error(pattern@) == Some(e@),
        },
{
    let glob = match parse_glob(pattern) {
        Ok(glob) => glob,
        Err(e) => {
            return Err(failure("invalid glob pattern ", quote(pattern).as_str(), e.as_str()));
        },
    };
    match build_glob_set(glob) {
        Ok(set) => Ok(set),
        Err(e) => Err(
            failure("failed to compile glob pattern ", quote(pattern).as_str(), e.as_str()),
        ),
    }
}

// ---------------------------------------------------------------------------
// find
// ---------------------------------------------------------------------------

/// A path with slashes in place of backslashes.
pub open spec fn slashed(path: Seq<char>) -> Seq<char> {
    Seq::new(path.len(), |i: int| slash_of(path[i]))
}

/// A slash in place of a backslash.
pub open spec fn slash_of(c: char) -> char {
    if c == '\\' {
        '/'
    } else {
        c
    }
}

/// A path with slashes in place of backslashes.
pub fn path_to_slash(path: &str) -> (s: String)
    ensures
        s@ == slashed(path@),
{
    let chars = to_chars(path);
    let mut s = String::new();
    let mut i: usize = 0;
    proof {
        assert(s@ =~= slashed(path@.take(0)));
    }
    while i < chars.len()
        invariant
            i <= chars@.len(),
            chars@ == path@,
            s@ == slashed(path@.take(i as int)),
        decreases chars@.len() - i,
    {
        let c = chars[i];
        if c == '\\' {
            s.push('/');
        } else {
            s.push(c);
        }
        proof {
            assert(s@ =~= slashed(path@.take(i + 1)));
        }
        i = i + 1;
    }
    proof {
        assert(path@.take(i as int) =~= path@);
    }
    s
}

/// The note that the result limit was reached.
pub open spec fn find_notice(limit: nat) -> Seq<char> {
    decimal(limit) + " results limit reached. Use limit="@ + decimal(limit * 2)
        + " for more, or refine pattern."@
}

/// What walking a directory came upon: a regular file, with its path relative
/// to the directory; something else; or an error.
#[derive(Debug)]
pub enum WalkItem {
    File(String),
    Other,
    Failed(String),
}

/// The first error of a walk.
pub open spec fn walk_error(items: Seq<WalkItem>) -> Option<Seq<char>>
    decreases items.len(),
{
    if items.len() == 0 {
        None
    } else {
        match items[0] {
            WalkItem::Failed(e) => Some(e@),
            _ => walk_error(items.drop_first()),
        }
    }
}

/// The files of a walk that match the pattern, with slashes.
pub open spec fn walk_matches(items: Seq<WalkItem>, pattern: Seq<char>) -> Seq<Seq<char>>
    decreases items.len(),
{
    if items.len() == 0 {
        Seq::empty()
    } else {
        let found = walk_matches(items.drop_last(), pattern);
        match items.last() {
            WalkItem::File(path) if glob_matches(pattern, path@) => found.push(slashed(path@)),
            _ => found,
        }
    }
}

/// The table of a search result.
pub open spec fn find_table(
    path: Seq<char>,
    pattern: Seq<char>,
    matches: nat,
    output: Seq<char>,
) -> CborModel {
    CborModel::Table(
        seq![
            text_entry("path"@, path),
            text_entry("pattern"@, pattern),
            count_entry("matches"@, matches),
            text_entry("output"@, output),
        ],
    )
}

/// What is reported for the files that match.
pub open spec fn find_report(
    path: Seq<char>,
    pattern: Seq<char>,
    limit: nat,
    matches: Seq<Seq<char>>,
) -> CborModel {
    find_table(
        path,
        pattern,
        matches.len(),
        if matches.len() == 0 {
            "no files found matching pattern"@
        } else {
            output_text(sorted_entries(matches), limit, find_notice(limit))
        },
    )
}

/// The result of the search tool. The first of these errors counts: a missing
/// pattern, a path that cannot be searched, a pattern that cannot be used, an
/// error of the walk.
pub open spec fn find_result(
    arguments: CborModel,
    metadata: Result<bool, Seq<char>>,
    walk: Seq<WalkItem>,
) -> Result<CborModel, Seq<char>> {
    match first_text(arguments.entries(), "pattern"@) {
        None => Err("missing string argument: "@ + "pattern"@),
        Some(pattern) => {
            let path = path_of(arguments);
            let limit = limit_of(arguments, DEFAULT_FIND_LIMIT);
            match directory_error(path, metadata) {
                Some(e) => Err(e),
                None => match pattern_error(pattern) {
                    Some(e) => Err(e),
                    None => match walk_error(walk) {
                        Some(e) => Err("failed to walk "@ + path + ": "@ + e),
                        None => Ok(find_report(path, pattern, limit, walk_matches(walk, pattern))),
                    },
                },
            }
        },
    }
}

fn find_notice_text(limit: u64) -> (s: String)
    ensures
        s@ == find_notice(limit as nat),
{
    let mut s = String::new();
    push_decimal(&mut s, limit as u128);
    s.append(" results limit reached. Use limit=");
    push_decimal(&mut s, limit as u128 * 2);
    s.append(" for more, or refine pattern.");
    proof {
        assert(s@ =~= find_notice(limit as nat));
    }
    s
}

/// What is reported for the files that match.
pub fn report_matches(path: &str, pattern: &str, limit: u64, matches: &[String]) -> (v: CborValue)
    ensures
        v.model() == find_report(path@, pattern@, limit as nat, views(matches@)),
{
    let output = if matches.len() == 0 {
        "no files found matching pattern".to_owned()
    } else {
        let sorted = sort_entries(matches);
        let notice = find_notice_text(limit);
        write_output(sorted.as_slice(), limit, notice.as_str())
    };
    let table = vec![
        make_text_entry("path", path),
        make_text_entry("pattern", pattern),
        make_count_entry("matches", matches.len()),
        make_text_entry("output", output.as_str()),
    ];
    proof {
        lemma_table_model(table);
        assert(entry_models(table@) =~= find_table(
            path@,
            pattern@,
            matches@.len(),
            output@,
        )->Table_0);
    }
    CborValue::Table(table)
}

/// The search tool: `metadata` says whether the path is a directory, `walk` what
/// walking it came upon.
pub fn run_find(arguments: &CborValue, metadata: Result<bool, String>, walk: &[WalkItem]) -> (r:
    Result<CborValue, String>)
    ensures
        tool_view(r) == find_result(arguments.model(), answer_view(metadata), walk@),
{
    let pattern = match argument_text(arguments, "pattern") {
        Ok(pattern) => pattern,
        Err(e) => {
            return Err(e);
        },
    };
    let path = read_path(arguments);
    let limit = read_limit(arguments, DEFAULT_FIND_LIMIT);
    if let Some(e) = check_directory(path.as_str(), &metadata) {
        return Err(e);
    }
    let set = match compile_find_glob(pattern.as_str()) {
        Ok(set) => set,
        Err(e) => {
            return Err(e);
        },
    };
    let mut matches: Vec<String> = Vec::new();
    let mut i: usize = 0;
    proof {
        assert(walk@.skip(0) =~= walk@);
        assert(walk@.take(0) =~= Seq::<WalkItem>::empty());
        assert(views(matches@) =~= walk_matches(walk@.take(0), pattern@));
    }
    while i < walk.len()
        invariant
            i <= walk@.len(),
            set_pattern(set) == pattern@,
            path@ == path_of(arguments.model()),
            first_text(arguments.model().entries(), "pattern"@) == Some(pattern@),
            directory_error(path@, answer_view(metadata)) is None,
            pattern_error(pattern@) is None,
            walk_error(walk@) == walk_error(walk@.skip(i as int)),
            views(matches@) == walk_matches(walk@.take(i as int), pattern@),
        decreases walk@.len() - i,
    {
        proof {
            assert(walk@.skip(i as int)[0] == walk@[i as int]);
            assert(walk@.skip(i as int).drop_first() =~= walk@.skip(i + 1));
            assert(walk@.take(i + 1).drop_last() =~= walk@.take(i as int));
            assert(walk@.take(i + 1).last() == walk@[i as int]);
        }
        match &walk[i] {
            WalkItem::Failed(e) => {
                return Err(failure("failed to walk ", path.as_str(), e.as_str()));
            },
            WalkItem::Other => {},
            WalkItem::File(file) => {
                if set_matches(&set, file.as_str()) {
                    let ghost found = views(matches@);
                    matches.push(path_to_slash(file.as_str()));
                    proof {
                        assert(views(matches@) =~= found.push(slashed(file@)));
                    }
                }
            },
        }
        i = i + 1;
    }
    proof {
        assert(walk@.take(i as int) =~= walk@);
    }
    Ok(report_matches(path.as_str(), pattern.as_str(), limit, matches.as_slice()))
}

// ---------------------------------------------------------------------------
// Laws
// ---------------------------------------------------------------------------

/// A limit that is asked for is taken as it is, however large, and counts as one
/// where it is smaller than one; without one, a listing shows 500 entries and a
/// search 1000 results.
pub proof fn law_limit_is_taken_as_asked(arguments: CborModel, default: u64)
    ensures
        match first_integer(arguments.entries(), "limit"@, i64::MIN as int, i64::MAX as int) {
            Some(n) => if n >= 1 {
                limit_of(arguments, default) == n
            } else {
                limit_of(arguments, default) == 1
            },
            None => limit_of(arguments, default) == default && limit_of(
                arguments,
                DEFAULT_LS_LIMIT,
            ) == 500 && limit_of(arguments, DEFAULT_FIND_LIMIT) == 1000,
        },
{
}

/// Whether `output` lists `sorted` under a limit: all entries where they are no more
/// than the limit, else as many as it allows and the note. What is too long for the
/// output is cut and noted, too.
pub open spec fn lists(
    output: Seq<char>,
    sorted: Seq<Seq<char>>,
    limit: int,
    notice: Seq<char>,
) -> bool {
    if sorted.len() <= limit {
        if fits(unlines(sorted)) {
            output == unlines(sorted)
        } else {
            output == head_truncated(unlines(sorted)).content
                + "\n\n[50KB/2000 line output limit reached.]"@
        }
    } else {
        if fits(unlines(sorted.take(limit))) {
            output == unlines(sorted.take(limit)) + "\n\n["@ + notice + "]"@
        } else {
            output == head_truncated(unlines(sorted.take(limit))).content + "\n\n["@ + notice
                + " 50KB/2000 line output limit reached.]"@
        }
    }
}

proof fn lemma_output_lists(sorted: Seq<Seq<char>>, limit: nat, notice: Seq<char>)
    ensures
        lists(output_text(sorted, limit, notice), sorted, limit as int, notice),
{
    reveal_strlit("\n\n[");
    reveal_strlit("]");
    reveal_strlit("50KB/2000 line output limit reached.");
    reveal_strlit("\n\n[50KB/2000 line output limit reached.]");
    reveal_strlit(" 50KB/2000 line output limit reached.]");
    let cut = "50KB/2000 line output limit reached."@;
    let none = Seq::<char>::empty();
    let shown = displayed(sorted, limit);
    let t = head_truncated(unlines(shown));
    let out = output_text(sorted, limit, notice);
    let over = sorted.len() > limit;
    let notes = notices(over, notice, t.was_truncated);
    if !over && !t.was_truncated {
        assert(notes =~= Seq::<Seq<char>>::empty());
        assert(t.content + none =~= t.content);
    } else if !over {
        assert(notes =~= seq![cut]);
        assert(out =~= t.content + "\n\n[50KB/2000 line output limit reached.]"@);
    } else if !t.was_truncated {
        assert(notes =~= seq![notice]);
        assert(out =~= t.content + "\n\n["@ + notice + "]"@);
    } else {
        assert(notes =~= seq![notice, cut]);
        assert(notes.drop_last() =~= seq![notice]);
        assert(seq![notice][0] == notice);
        assert(join(notes.drop_last(), seq![' ']) == notice);
        assert(join(notes, seq![' ']) == notice + seq![' '] + cut);
        assert(out =~= t.content + "\n\n["@ + notice
            + " 50KB/2000 line output limit reached.]"@);
    }
}

/// A listing shows the entries of the directory in their order, as many as were asked
/// for, and notes that there are more exactly where there are.
pub proof fn law_ls_lists_up_to_the_limit(
    arguments: CborModel,
    entries: Seq<Seq<char>>,
    n: int,
)
    requires
        entries.len() > 0,
        n >= 1,
        first_integer(arguments.entries(), "limit"@, i64::MIN as int, i64::MAX as int) == Some(n)
            || (n == 500 && first_integer(
            arguments.entries(),
            "limit"@,
            i64::MIN as int,
            i64::MAX as int,
        ) is None),
    ensures
        ls_result(arguments, Ok(true), Ok(entries)) matches Ok(CborModel::Table(t)) && t.len() == 3
            && t[0] == (
            CborModel::Text("path"@),
            CborModel::Text(
                match first_text(arguments.entries(), "path"@) {
                    Some(p) => p,
                    None => "."@,
                },
            ),
        ) && t[1] == (CborModel::Text("entries"@), CborModel::Integer(entries.len() as int))
            && t[2].0 == CborModel::Text("output"@) && (t[2].1 matches CborModel::Text(output)
            && lists(
            output,
            sorted_entries(entries),
            n,
            decimal(n as nat) + " entries limit reached. Use limit="@ + decimal((2 * n) as nat)
                + " for more."@,
        )),
{
    law_sorting_orders_entries(entries);
    lemma_output_lists(sorted_entries(entries), n as nat, ls_notice(n as nat));
    lemma_sorted_len(entries);
    assert(n as nat * 2 == (2 * n) as nat);
}

proof fn lemma_sorted_len(entries: Seq<Seq<char>>)
    ensures
        sorted_entries(entries).len() == entries.len(),
    decreases entries.len(),
{
    if entries.len() > 0 {
        lemma_sorted_len(entries.drop_last());
        lemma_inserted_len(sorted_entries(entries.drop_last()), entries.last());
    }
}

proof fn lemma_inserted_len(sorted: Seq<Seq<char>>, x: Seq<char>)
    ensures
        insert_sorted(sorted, x).len() == sorted.len() + 1,
    decreases sorted.len(),
{
    if !(sorted.len() == 0 || !before(x, sorted.last())) {
        lemma_inserted_len(sorted.drop_last(), x);
    }
}

/// An empty directory and one that cannot be read are reported as such.
pub proof fn law_ls_reports_what_it_cannot_list(arguments: CborModel, cause: Seq<char>)
    ensures
        ({
            let path = match first_text(arguments.entries(), "path"@) {
                Some(p) => p,
                None => "."@,
            };
            let none: Seq<Seq<char>> = Seq::empty();
            &&& ls_result(arguments, Ok(true), Ok(none)) matches Ok(CborModel::Table(t))
                && t.len() == 3 && t[1].1 == CborModel::Integer(0) && t[2].1 == CborModel::Text(
                "(empty directory)"@,
            )
            &&& ls_result(arguments, Ok(true), Err(cause)) == Err::<CborModel, Seq<char>>(
                "failed to read "@ + path + ": "@ + cause,
            )
            &&& forall|listing: Result<Seq<Seq<char>>, Seq<char>>|
                #![trigger ls_result(arguments, Ok(false), listing)]
                ls_result(arguments, Ok(false), listing) == Err::<CborModel, Seq<char>>(
                    "not a directory: "@ + path,
                )
            &&& forall|listing: Result<Seq<Seq<char>>, Seq<char>>|
                #![trigger ls_result(arguments, Err(cause), listing)]
                ls_result(arguments, Err(cause), listing) == Err::<CborModel, Seq<char>>(
                    "failed to access "@ + path + ": "@ + cause,
                )
        }),
{
}

/// A directory is shown by its name and a slash, anything else by its name.
pub proof fn law_entries_are_shown_by_name(entries: Seq<LsEntry>)
    ensures
        shown_entries(entries).len() == entries.len(),
        forall|i: int|
            0 <= i < entries.len() ==> (#[trigger] shown_entries(entries)[i])
                == entries[i].name@ + if entries[i].is_dir {
                seq!['/']
            } else {
                Seq::empty()
            },
{
    assert forall|i: int| 0 <= i < entries.len() implies (#[trigger] shown_entries(entries)[i])
        == entries[i].name@ + if entries[i].is_dir {
        seq!['/']
    } else {
        Seq::empty()
    } by {
        assert(shown_entries(entries)[i] =~= entries[i].name@ + if entries[i].is_dir {
            seq!['/']
        } else {
            Seq::empty()
        });
    }
}

/// Entries that differ in letter case only keep their order.
pub proof fn law_sorting_is_stable(entries: Seq<Seq<char>>, key: Seq<char>)
    ensures
        sorted_entries(entries).filter(|e: Seq<char>| lowercase(e) == key) == entries.filter(
            |e: Seq<char>| lowercase(e) == key,
        ),
    decreases entries.len(),
{
    reveal(Seq::filter);
    if entries.len() > 0 {
        let front = entries.drop_last();
        law_sorting_is_stable(front, key);
        law_sorting_orders_entries(front);
        lemma_insert_stable(sorted_entries(front), entries.last(), key);
    }
}

proof fn lemma_insert_stable(sorted: Seq<Seq<char>>, x: Seq<char>, key: Seq<char>)
    ensures
        insert_sorted(sorted, x).filter(|e: Seq<char>| lowercase(e) == key) == if lowercase(x)
            == key {
            sorted.filter(|e: Seq<char>| lowercase(e) == key).push(x)
        } else {
            sorted.filter(|e: Seq<char>| lowercase(e) == key)
        },
    decreases sorted.len(),
{
    reveal(Seq::filter);
    let same = |e: Seq<char>| lowercase(e) == key;
    if sorted.len() == 0 || !before(x, sorted.last()) {
        assert(sorted.push(x).drop_last() =~= sorted);
    } else {
        let front = sorted.drop_last();
        let inner = insert_sorted(front, x);
        lemma_insert_stable(front, x, key);
        assert(inner.push(sorted.last()).drop_last() =~= inner);
        if lowercase(x) == key {
            lemma_text_lt_irreflexive(key);
        }
    }
}

/// Whether something that was come upon is a file that the pattern matches.
pub open spec fn is_hit(item: WalkItem, pattern: Seq<char>) -> bool {
    item matches WalkItem::File(path) && glob_matches(pattern, path@)
}

/// A search finds every file that the pattern matches and nothing else, in the order
/// in which they were come upon; their paths are as they were but for backslashes,
/// which become slashes.
pub proof fn law_search_finds_what_matches(items: Seq<WalkItem>, pattern: Seq<char>)
    ensures
        ({
            let hits = items.filter(|item: WalkItem| is_hit(item, pattern));
            let found = walk_matches(items, pattern);
            &&& found.len() == hits.len()
            &&& forall|i: int|
                0 <= i < found.len() ==> (hits[i] matches WalkItem::File(path) && (
                #[trigger] found[i]).len() == path@.len() && forall|j: int|
                    0 <= j < path@.len() ==> #[trigger] found[i][j] == if path@[j] == '\\' {
                        '/'
                    } else {
                        path@[j]
                    })
        }),
    decreases items.len(),
{
    reveal(Seq::filter);
    if items.len() > 0 {
        law_search_finds_what_matches(items.drop_last(), pattern);
    }
}

/// The error of a walk is the first one that it came upon.
pub proof fn law_first_walk_error_counts(items: Seq<WalkItem>)
    ensures
        match walk_error(items) {
            Some(e) => exists|i: int|
                0 <= i < items.len() && (#[trigger] items[i] matches WalkItem::Failed(f) && f@
                    == e) && forall|j: int| 0 <= j < i ==> !(#[trigger] items[j] is Failed),
            None => forall|j: int| 0 <= j < items.len() ==> !(#[trigger] items[j] is Failed),
        },
    decreases items.len(),
{
    if items.len() > 0 && !(items[0] is Failed) {
        let rest = items.drop_first();
        law_first_walk_error_counts(rest);
        assert forall|j: int| 0 < j < items.len() implies #[trigger] items[j] == rest[j - 1] by {}
        if let Some(e) = walk_error(rest) {
            let i = choose|i: int|
                0 <= i < rest.len() && (#[trigger] rest[i] matches WalkItem::Failed(f) && f@ == e)
                    && forall|j: int| 0 <= j < i ==> !(#[trigger] rest[j] is Failed);
            assert(items[i + 1] == rest[i]);
        }
    }
}

/// A search shows the files that match in their order, as many as were asked for, and
/// notes that there are more exactly where there are.
pub proof fn law_find_lists_up_to_the_limit(
    arguments: CborModel,
    pattern: Seq<char>,
    walk: Seq<WalkItem>,
    n: int,
)
    requires
        first_text(arguments.entries(), "pattern"@) == Some(pattern),
        glob_error(pattern) is None,
        glob_set_error(pattern) is None,
        walk_error(walk) is None,
        n >= 1,
        first_integer(arguments.entries(), "limit"@, i64::MIN as int, i64::MAX as int) == Some(n)
            || (n == 1000 && first_integer(
            arguments.entries(),
            "limit"@,
            i64::MIN as int,
            i64::MAX as int,
        ) is None),
    ensures
        find_result(arguments, Ok(true), walk) matches Ok(CborModel::Table(t)) && t.len() == 4
            && t[0] == (
            CborModel::Text("path"@),
            CborModel::Text(
                match first_text(arguments.entries(), "path"@) {
                    Some(p) => p,
                    None => "."@,
                },
            ),
        ) && t[1] == (CborModel::Text("pattern"@), CborModel::Text(pattern)) && t[2] == (
            CborModel::Text("matches"@),
            CborModel::Integer(walk_matches(walk, pattern).len() as int),
        ) && t[3].0 == CborModel::Text("output"@) && (t[3].1 matches CborModel::Text(output)
            && if walk_matches(walk, pattern).len() == 0 {
            output == "no files found matching pattern"@
        } else {
            lists(
                output,
                sorted_entries(walk_matches(walk, pattern)),
                n,
                decimal(n as nat) + " results limit reached. Use limit="@ + decimal(
                    (2 * n) as nat,
                ) + " for more, or refine pattern."@,
            )
        }),
{
    let matches = walk_matches(walk, pattern);
    lemma_output_lists(sorted_entries(matches), n as nat, find_notice(n as nat));
    lemma_sorted_len(matches);
    assert(n as nat * 2 == (2 * n) as nat);
}

/// A search that cannot be made is refused: without a pattern, where the path is no
/// directory that can be read, with a pattern that cannot be used, and where walking
/// fails.
pub proof fn law_find_reports_what_it_cannot_search(
    arguments: CborModel,
    metadata: Result<bool, Seq<char>>,
    walk: Seq<WalkItem>,
)
    ensures
        find_result(arguments, metadata, walk) is Ok <==> {
            &&& first_text(arguments.entries(), "pattern"@) matches Some(pattern)
                && glob_error(pattern) is None && glob_set_error(pattern) is None
            &&& metadata == Ok::<bool, Seq<char>>(true)
            &&& walk_error(walk) is None
        },
{
}

} // verus!
