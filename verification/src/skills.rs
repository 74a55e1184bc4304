//! Skills: their frontmatter, what makes one valid, where they are found and
//! which of two with the same name is kept.
//!
//! The frontmatter is a small subset of YAML: `key: value` lines, with optional
//! quotes around a value. Blank lines and lines that start with `#` say nothing.
//! There are no values of several lines, no lists, no nested structure and no
//! escapes.

use crate::path::{file_name, file_name_of, join, joined, parent, parent_of};
use crate::table::{deep_views, lookup, ordered, put, values_of, TextMap};
use crate::text::{
    all_white, byte_len, decimal, ends_with, extend_chars, find_char, find_char_from, from_chars,
    has_prefix, has_suffix, is_white, law_trim_takes_outer_white_space, law_trim_undoes_padding,
    lemma_find_char_props, lines, push_decimal, slice_text, split_lines, starts_with, str_eq,
    str_len, strip_cr, to_chars, trim, trim_chars, trim_str,
};
use vstd::prelude::*;

verus! {

/// Most bytes of a name.
pub const MAX_NAME_LENGTH: usize = 64;

/// Most bytes of a description without a warning.
pub const MAX_DESCRIPTION_LENGTH: usize = 1024;

/// The file that makes a directory a skill.
pub const SKILL_FILENAME: &'static str = "SKILL.md";

// ---------------------------------------------------------------------------
// Frontmatter
// ---------------------------------------------------------------------------

/// The text without a leading byte order mark.
pub open spec fn without_mark(s: Seq<char>) -> Seq<char> {
    if s.len() > 0 && s[0] == '\u{feff}' {
        s.drop_first()
    } else {
        s
    }
}

/// Length of the opening fence with its line ending, or 0.
pub open spec fn opening(s: Seq<char>) -> int {
    if starts_with(s, seq!['-', '-', '-', '\n']) {
        4
    } else if starts_with(s, seq!['-', '-', '-', '\r', '\n']) {
        5
    } else {
        0
    }
}

/// Where the line that starts at `pos` ends, with its `\n`.
pub open spec fn line_end(s: Seq<char>, pos: int) -> int {
    let k = pos + find_char(s.skip(pos), '\n');
    if k < s.len() {
        k + 1
    } else {
        s.len() as int
    }
}

/// The first line from `pos` on that is `---`, white space around it aside: where
/// it starts, and where it ends.
pub open spec fn closing(s: Seq<char>, pos: int) -> Option<(int, int)>
    decreases s.len() - pos,
    via closing_decreases
{
    if pos < 0 || pos >= s.len() {
        None
    } else if trim(s.subrange(pos, line_end(s, pos))) == seq!['-', '-', '-'] {
        Some((pos, line_end(s, pos)))
    } else {
        closing(s, line_end(s, pos))
    }
}

#[via_fn]
proof fn closing_decreases(s: Seq<char>, pos: int) {
    if 0 <= pos < s.len() {
        lemma_find_char_props(s.skip(pos), '\n');
    }
}

/// A value without one pair of quotes around it.
pub open spec fn unquoted(s: Seq<char>) -> Seq<char> {
    if s.len() >= 2 && s[0] == s.last() && (s[0] == '"' || s[0] == '\'') {
        s.subrange(1, s.len() - 1)
    } else {
        s
    }
}

/// The key and the value of a line: what stands before and after its first
/// colon.
pub open spec fn field(line: Seq<char>) -> Option<(Seq<char>, Seq<char>)> {
    let t = trim(line);
    let k = find_char(t, ':');
    if t.len() == 0 || t[0] == '#' || k >= t.len() || trim(t.take(k)).len() == 0 {
        None
    } else {
        Some((trim(t.take(k)), unquoted(trim(t.skip(k + 1)))))
    }
}

/// The fields of the lines; a later line replaces the value of an earlier one
/// with the same key.
pub open spec fn fields(all: Seq<Seq<char>>) -> Seq<(Seq<char>, Seq<char>)>
    decreases all.len(),
{
    if all.len() == 0 {
        Seq::empty()
    } else {
        match field(all.last()) {
            Some((key, value)) => put(fields(all.drop_last()), key, value),
            None => fields(all.drop_last()),
        }
    }
}

/// Whether a text has a frontmatter: its first line, a byte order mark aside, is
/// an opening fence, and a later line is a closing one.
pub open spec fn has_frontmatter(content: Seq<char>) -> bool {
    let s = without_mark(content);
    opening(s) != 0 && closing(s.skip(opening(s)), 0) is Some
}

/// The fields and the body of a text. Without a frontmatter, all of the text is
/// body.
pub open spec fn frontmatter(content: Seq<char>) -> (Seq<(Seq<char>, Seq<char>)>, Seq<char>) {
    let s = without_mark(content);
    let rest = s.skip(opening(s));
    if opening(s) == 0 {
        (Seq::empty(), content)
    } else {
        match closing(rest, 0) {
            None => (Seq::empty(), content),
            Some((end, body)) => (fields(lines(rest.take(end))), rest.skip(body)),
        }
    }
}

/// Where the line that starts at `pos` ends.
fn find_line_end(s: &[char], pos: usize) -> (e: usize)
    requires
        pos < s@.len(),
    ensures
        e == line_end(s@, pos as int),
        pos < e <= s@.len(),
{
    let k = find_char_from(s, '\n', pos);
    if k < s.len() {
        k + 1
    } else {
        s.len()
    }
}

/// Whether the characters are three hyphens.
fn is_fence(s: &[char]) -> (r: bool)
    ensures
        r == (s@ == seq!['-', '-', '-']),
{
    if s.len() == 3 && s[0] == '-' && s[1] == '-' && s[2] == '-' {
        proof {
            assert(s@ =~= seq!['-', '-', '-']);
        }
        true
    } else {
        proof {
            let f = seq!['-', '-', '-'];
            assert(f.len() == 3 && f[0] == '-' && f[1] == '-' && f[2] == '-');
        }
        false
    }
}

/// Where the closing fence starts, and where the body behind it starts.
fn find_closing_fence(s: &[char]) -> (r: Option<(usize, usize)>)
    ensures
        match r {
            Some((end, body)) => closing(s@, 0) == Some((end as int, body as int)) && end <= body
                <= s@.len(),
            None => closing(s@, 0) is None,
        },
{
    let mut pos: usize = 0;
    while pos < s.len()
        invariant
            pos <= s@.len(),
            closing(s@, 0) == closing(s@, pos as int),
        decreases s@.len() - pos,
    {
        let end = find_line_end(s, pos);
        let line = trim_chars(vstd::slice::slice_subrange(s, pos, end));
        if is_fence(&line) {
            return Some((pos, end));
        }
        pos = end;
    }
    None
}

/// A value without one pair of quotes around it.
fn strip_quotes(s: &[char]) -> (r: String)
    ensures
        r@ == unquoted(s@),
{
    let n = s.len();
    if n >= 2 && s[0] == s[n - 1] && (s[0] == '"' || s[0] == '\'') {
        slice_text(s, 1, n - 1)
    } else {
        from_chars(s)
    }
}

/// The key and the value of a line.
fn parse_frontmatter_line(line: &[char]) -> (r: Option<(String, String)>)
    ensures
        match r {
            Some((key, value)) => field(line@) == Some((key@, value@)),
            None => field(line@) is None,
        },
{
    let t = trim_chars(line);
    if t.len() == 0 || t[0] == '#' {
        return None;
    }
    proof {
        assert(t@.skip(0) =~= t@);
    }
    let k = find_char_from(&t, ':', 0);
    if k >= t.len() {
        return None;
    }
    let head = vstd::slice::slice_subrange(&t, 0, k);
    let tail = vstd::slice::slice_subrange(&t, k + 1, t.len());
    proof {
        assert(head@ =~= t@.take(k as int));
        assert(tail@ =~= t@.skip(k + 1));
    }
    let key = trim_chars(head);
    if key.len() == 0 {
        return None;
    }
    let value = trim_chars(tail);
    Some((from_chars(&key), strip_quotes(&value)))
}

/// The characters without a leading byte order mark.
fn strip_mark(content: &str) -> (s: Vec<char>)
    ensures
        s@ == without_mark(content@),
{
    let chars = to_chars(content);
    if chars.len() > 0 && chars[0] == '\u{feff}' {
        let mut s: Vec<char> = Vec::new();
        extend_chars(&mut s, vstd::slice::slice_subrange(&chars, 1, chars.len()));
        proof {
            assert(s@ =~= content@.drop_first());
        }
        s
    } else {
        chars
    }
}

/// Length of the opening fence with its line ending, or 0.
fn opening_len(s: &[char]) -> (n: usize)
    ensures
        n == opening(s@),
        n <= s@.len(),
{
    let lf = vec!['-', '-', '-', '\n'];
    let crlf = vec!['-', '-', '-', '\r', '\n'];
    proof {
        assert(lf@ =~= seq!['-', '-', '-', '\n']);
        assert(crlf@ =~= seq!['-', '-', '-', '\r', '\n']);
    }
    if has_prefix(s, &lf) {
        4
    } else if has_prefix(s, &crlf) {
        5
    } else {
        0
    }
}

/// The fields of the frontmatter, and the body behind it.
pub fn parse_frontmatter(content: &str) -> (r: (TextMap<String>, String))
    ensures
        (r.0@, r.1@) == frontmatter(content@),
        ordered(r.0@),
{
    let s = strip_mark(content);
    let mut map: TextMap<String> = TextMap::new();
    let n = opening_len(&s);
    if n == 0 {
        return (map, content.to_owned());
    }
    let rest = vstd::slice::slice_subrange(&s, n, s.len());
    proof {
        assert(rest@ =~= s@.skip(opening(s@)));
    }
    let (end, body) = match find_closing_fence(rest) {
        Some(found) => found,
        None => {
            return (map, content.to_owned());
        },
    };
    let block = vstd::slice::slice_subrange(rest, 0, end);
    let all = split_lines(block);
    let ghost texts = crate::text::char_views(all@);
    proof {
        assert(block@ =~= rest@.take(end as int));
        assert(texts.take(0) =~= Seq::<Seq<char>>::empty());
    }
    let mut i: usize = 0;
    while i < all.len()
        invariant
            i <= all@.len(),
            texts == crate::text::char_views(all@),
            map@ == fields(texts.take(i as int)),
            ordered(map@),
        decreases all@.len() - i,
    {
        proof {
            assert(texts.take(i + 1).drop_last() =~= texts.take(i as int));
            assert(texts.take(i + 1).last() == all@[i as int]@);
        }
        if let Some((key, value)) = parse_frontmatter_line(&all[i]) {
            map.insert(key, value);
        }
        i = i + 1;
    }
    let tail = slice_text(rest, body, rest.len());
    proof {
        assert(texts.take(i as int) =~= texts);
        assert(tail@ =~= rest@.skip(body as int));
    }
    (map, tail)
}

/// The body behind the frontmatter.
pub fn strip_frontmatter(content: &str) -> (body: String)
    ensures
        body@ == frontmatter(content@).1,
{
    parse_frontmatter(content).1
}

// ---------------------------------------------------------------------------
// Skills and diagnostics
// ---------------------------------------------------------------------------

/// A loaded skill.
#[derive(Clone, Debug, PartialEq, Eq)]
pub struct Skill {
    pub name: String,
    pub description: String,
    pub file_path: String,
    /// Whether the skill is listed in the system prompt when a session starts.
    pub add_to_prompt: bool,
}

/// What a [`Skill`] says.
#[verifier::ext_equal]
pub struct SkillModel {
    pub name: Seq<char>,
    pub description: Seq<char>,
    pub file_path: Seq<char>,
    pub add_to_prompt: bool,
}

impl View for Skill {
    type V = SkillModel;

    open spec fn view(&self) -> SkillModel {
        SkillModel {
            name: self.name@,
            description: self.description@,
            file_path: self.file_path@,
            add_to_prompt: self.add_to_prompt,
        }
    }
}

/// The directory of a file: its parent, or the path itself where it has none.
pub open spec fn directory_of(path: Seq<char>) -> Seq<char> {
    match parent(path) {
        Some(d) => d,
        None => path,
    }
}

fn find_directory(path: &str) -> (d: String)
    ensures
        d@ == directory_of(path@),
{
    match parent_of(path) {
        Some(d) => d,
        None => path.to_owned(),
    }
}

impl Skill {
    /// The directory that holds the file of this skill.
    pub fn base_dir(&self) -> (d: String)
        ensures
            d@ == directory_of(self@.file_path),
    {
        find_directory(self.file_path.as_str())
    }
}

/// How bad a diagnostic is.
#[derive(Clone, Copy, Debug, PartialEq, Eq, Structural)]
pub enum DiagnosticKind {
    /// The skill loads all the same.
    Warning,
    /// The name is taken; the skill that has it stays.
    Collision,
    /// The skill is not loaded.
    Skipped,
}

/// What was noticed while loading a skill.
#[derive(Clone, Debug, PartialEq, Eq)]
pub struct SkillDiagnostic {
    pub path: String,
    pub kind: DiagnosticKind,
    pub message: String,
}

/// What a [`SkillDiagnostic`] says.
#[verifier::ext_equal]
pub struct DiagnosticModel {
    pub path: Seq<char>,
    pub kind: DiagnosticKind,
    pub message: Seq<char>,
}

impl View for SkillDiagnostic {
    type V = DiagnosticModel;

    open spec fn view(&self) -> DiagnosticModel {
        DiagnosticModel { path: self.path@, kind: self.kind, message: self.message@ }
    }
}

/// One diagnostic if `on`, else none.
pub open spec fn noted(
    on: bool,
    path: Seq<char>,
    kind: DiagnosticKind,
    message: Seq<char>,
) -> Seq<DiagnosticModel> {
    if on {
        seq![DiagnosticModel { path, kind, message }]
    } else {
        Seq::empty()
    }
}

/// Appends a diagnostic if `on`.
fn note(
    out: &mut Vec<SkillDiagnostic>,
    on: bool,
    path: &str,
    kind: DiagnosticKind,
    message: String,
)
    ensures
        deep_views(final(out)@) == deep_views(old(out)@) + noted(on, path@, kind, message@),
{
    let ghost before = out@;
    if on {
        let d = SkillDiagnostic { path: path.to_owned(), kind, message };
        out.push(d);
        proof {
            assert(deep_views(out@) =~= deep_views(before) + seq![d@]);
        }
    } else {
        proof {
            assert(deep_views(before) + Seq::<DiagnosticModel>::empty() =~= deep_views(before));
        }
    }
}

// ---------------------------------------------------------------------------
// Names
// ---------------------------------------------------------------------------

/// The characters of a name: lower case letters, digits and hyphens.
pub open spec fn is_name_char(c: char) -> bool {
    ||| 'a' <= c <= 'z'
    ||| '0' <= c <= '9'
    ||| c == '-'
}

/// Whether a name has other characters.
pub open spec fn has_foreign_char(name: Seq<char>) -> bool {
    exists|i: int| 0 <= i < name.len() && !is_name_char(#[trigger] name[i])
}

/// Whether a name starts or ends with a hyphen.
pub open spec fn has_outer_hyphen(name: Seq<char>) -> bool {
    name.len() > 0 && (name[0] == '-' || name.last() == '-')
}

/// Whether a name has two hyphens in a row.
pub open spec fn has_double_hyphen(name: Seq<char>) -> bool {
    exists|i: int, j: int|
        0 <= i && j == i + 1 && j < name.len() && #[trigger] name[i] == '-' && #[trigger] name[j]
            == '-'
}

/// Whether a skill can have this name: it is not empty, not too long, made of
/// lower case letters, digits and hyphens, and no hyphen stands at an end or
/// next to another.
pub open spec fn usable_name(name: Seq<char>) -> bool {
    &&& name.len() > 0
    &&& byte_len(name) <= MAX_NAME_LENGTH
    &&& !has_foreign_char(name)
    &&& !has_outer_hyphen(name)
    &&& !has_double_hyphen(name)
}

/// What is wrong with a name, in this order.
pub open spec fn name_diagnostics(
    name: Seq<char>,
    parent_name: Option<Seq<char>>,
    path: Seq<char>,
) -> Seq<DiagnosticModel> {
    if name.len() == 0 {
        noted(
            true,
            path,
            DiagnosticKind::Skipped,
            "name is empty (no `name:` field and no usable parent directory name)"@,
        )
    } else {
        let mismatch = match parent_name {
            Some(p) => noted(
                name != p,
                path,
                DiagnosticKind::Warning,
                "name \""@ + name + "\" does not match parent directory \""@ + p + "\""@,
            ),
            None => Seq::empty(),
        };
        mismatch + noted(
            byte_len(name) > MAX_NAME_LENGTH,
            path,
            DiagnosticKind::Skipped,
            "name exceeds 64 characters ("@ + decimal(byte_len(name)) + ")"@,
        ) + noted(
            has_foreign_char(name),
            path,
            DiagnosticKind::Skipped,
            "name contains invalid characters (must be lowercase a-z, 0-9, hyphens only)"@,
        ) + noted(
            has_outer_hyphen(name),
            path,
            DiagnosticKind::Skipped,
            "name must not start or end with a hyphen"@,
        ) + noted(
            has_double_hyphen(name),
            path,
            DiagnosticKind::Skipped,
            "name must not contain consecutive hyphens"@,
        )
    }
}

fn find_foreign_char(name: &[char]) -> (r: bool)
    ensures
        r == has_foreign_char(name@),
{
    let mut i: usize = 0;
    while i < name.len()
        invariant
            i <= name@.len(),
            forall|j: int| 0 <= j < i ==> is_name_char(#[trigger] name@[j]),
        decreases name@.len() - i,
    {
        let c = name[i];
        if !(('a' <= c && c <= 'z') || ('0' <= c && c <= '9') || c == '-') {
            proof {
                assert(!is_name_char(name@[i as int]));
            }
            return true;
        }
        i = i + 1;
    }
    false
}

fn find_double_hyphen(name: &[char]) -> (r: bool)
    ensures
        r == has_double_hyphen(name@),
{
    let mut i: usize = 1;
    while i < name.len()
        invariant
            1 <= i,
            forall|a: int, b: int|
                0 <= a && b == a + 1 && b < i && b < name@.len() ==> !(#[trigger] name@[a] == '-'
                    && #[trigger] name@[b] == '-'),
        decreases name@.len() - i,
    {
        if name[i - 1] == '-' && name[i] == '-' {
            return true;
        }
        i = i + 1;
    }
    false
}

fn mismatch_message(name: &str, parent_name: &str) -> (s: String)
    ensures
        s@ == "name \""@ + name@ + "\" does not match parent directory \""@ + parent_name@
            + "\""@,
{
    let mut s = "name \"".to_owned();
    s.append(name);
    s.append("\" does not match parent directory \"");
    s.append(parent_name);
    s.append("\"");
    s
}

fn length_message(head: &str, n: usize) -> (s: String)
    ensures
        s@ == head@ + decimal(n as nat) + ")"@,
{
    let mut s = head.to_owned();
    push_decimal(&mut s, n as u128);
    s.append(")");
    s
}

/// What was found wrong with a name, and whether the skill is to be skipped.
#[derive(Debug)]
pub struct NameValidation {
    pub diagnostics: Vec<SkillDiagnostic>,
    pub skip: bool,
}

/// Checks a name.
pub fn validate_name(name: &str, parent_dir_name: Option<&str>, path: &str) -> (r: NameValidation)
    ensures
        deep_views(r.diagnostics@) == name_diagnostics(
            name@,
            crate::cbor::str_opt(parent_dir_name),
            path@,
        ),
        r.skip == !usable_name(name@),
{
    let mut diagnostics: Vec<SkillDiagnostic> = Vec::new();
    let chars = to_chars(name);
    proof {
        assert(deep_views(diagnostics@) =~= Seq::<DiagnosticModel>::empty());
    }
    if chars.len() == 0 {
        note(
            &mut diagnostics,
            true,
            path,
            DiagnosticKind::Skipped,
            "name is empty (no `name:` field and no usable parent directory name)".to_owned(),
        );
        proof {
            assert(deep_views(diagnostics@) =~= name_diagnostics(
                name@,
                crate::cbor::str_opt(parent_dir_name),
                path@,
            ));
        }
        return NameValidation { diagnostics, skip: true };
    }
    let ghost mismatch = match crate::cbor::str_opt(parent_dir_name) {
        Some(p) => noted(
            name@ != p,
            path@,
            DiagnosticKind::Warning,
            "name \""@ + name@ + "\" does not match parent directory \""@ + p + "\""@,
        ),
        None => Seq::<DiagnosticModel>::empty(),
    };
    if let Some(parent_name) = parent_dir_name {
        note(
            &mut diagnostics,
            !str_eq(name, parent_name),
            path,
            DiagnosticKind::Warning,
            mismatch_message(name, parent_name),
        );
    }
    proof {
        assert(deep_views(diagnostics@) =~= mismatch);
    }
    let n = str_len(name);
    note(
        &mut diagnostics,
        n > MAX_NAME_LENGTH,
        path,
        DiagnosticKind::Skipped,
        length_message("name exceeds 64 characters (", n),
    );
    let foreign = find_foreign_char(&chars);
    note(
        &mut diagnostics,
        foreign,
        path,
        DiagnosticKind::Skipped,
        "name contains invalid characters (must be lowercase a-z, 0-9, hyphens only)".to_owned(),
    );
    let outer = chars[0] == '-' || chars[chars.len() - 1] == '-';
    note(
        &mut diagnostics,
        outer,
        path,
        DiagnosticKind::Skipped,
        "name must not start or end with a hyphen".to_owned(),
    );
    let double = find_double_hyphen(&chars);
    note(
        &mut diagnostics,
        double,
        path,
        DiagnosticKind::Skipped,
        "name must not contain consecutive hyphens".to_owned(),
    );
    NameValidation { diagnostics, skip: n > MAX_NAME_LENGTH || foreign || outer || double }
}

/// What is wrong with a description.
pub open spec fn description_diagnostics(description: Seq<char>, path: Seq<char>) -> Seq<
    DiagnosticModel,
> {
    noted(
        byte_len(description) > MAX_DESCRIPTION_LENGTH,
        path,
        DiagnosticKind::Warning,
        "description exceeds 1024 characters ("@ + decimal(byte_len(description)) + ")"@,
    )
}

/// Appends what is wrong with a description.
fn note_description(out: &mut Vec<SkillDiagnostic>, description: &str, path: &str)
    ensures
        deep_views(final(out)@) == deep_views(old(out)@) + description_diagnostics(
            description@,
            path@,
        ),
{
    let n = str_len(description);
    note(
        out,
        n > MAX_DESCRIPTION_LENGTH,
        path,
        DiagnosticKind::Warning,
        length_message("description exceeds 1024 characters (", n),
    );
}

// ---------------------------------------------------------------------------
// One file
// ---------------------------------------------------------------------------

/// The name of the directory that holds a file.
pub open spec fn parent_name(path: Seq<char>) -> Option<Seq<char>> {
    file_name(directory_of(path))
}

/// The name of a skill: the field, or the name of its directory, or nothing.
pub open spec fn skill_name(map: Seq<(Seq<char>, Seq<char>)>, path: Seq<char>) -> Seq<char> {
    match lookup(map, "name"@) {
        Some(n) => n,
        None => match parent_name(path) {
            Some(n) => n,
            None => Seq::empty(),
        },
    }
}

/// The lower case of an ASCII letter; any other character itself.
pub open spec fn ascii_lower(c: char) -> char {
    if 'A' <= c <= 'Z' {
        (c as u32 + 32) as char
    } else {
        c
    }
}

/// Whether a field is `true`, in any letter case, or `1`.
pub open spec fn is_truthy(v: Option<Seq<char>>) -> bool {
    match v {
        Some(s) => Seq::new(s.len(), |i: int| ascii_lower(s[i])) == "true"@ || s == "1"@,
        None => false,
    }
}

/// The description of a skill, unless it is missing or blank.
pub open spec fn skill_description(map: Seq<(Seq<char>, Seq<char>)>) -> Option<Seq<char>> {
    match lookup(map, "description"@) {
        Some(d) => if trim(d).len() > 0 {
            Some(trim(d))
        } else {
            None
        },
        None => None,
    }
}

/// The skill of a file, if it has a usable name and a description, and what was
/// noticed.
pub open spec fn loaded_skill(content: Seq<char>, path: Seq<char>) -> (
    Option<SkillModel>,
    Seq<DiagnosticModel>,
) {
    let map = frontmatter(content).0;
    let name = skill_name(map, path);
    let named = name_diagnostics(name, parent_name(path), path);
    if !usable_name(name) {
        (None, named)
    } else {
        match skill_description(map) {
            None => (
                None,
                named + noted(true, path, DiagnosticKind::Skipped, "description is required"@),
            ),
            Some(description) => (
                Some(
                    SkillModel {
                        name,
                        description,
                        file_path: path,
                        add_to_prompt: is_truthy(lookup(map, "advertise"@)),
                    },
                ),
                named + description_diagnostics(description, path),
            ),
        }
    }
}

fn lower_ascii(c: char) -> (r: char)
    ensures
        r == ascii_lower(c),
{
    if 'A' <= c && c <= 'Z' {
        ((c as u8) + 32) as char
    } else {
        c
    }
}

/// Whether a field is `true`, in any letter case, or `1`.
fn truthy(s: &str) -> (r: bool)
    ensures
        r == is_truthy(Some(s@)),
{
    let chars = to_chars(s);
    let mut low: Vec<char> = Vec::new();
    let mut i: usize = 0;
    while i < chars.len()
        invariant
            i <= chars@.len(),
            low@.len() == i,
            forall|j: int| 0 <= j < i ==> #[trigger] low@[j] == ascii_lower(chars@[j]),
        decreases chars@.len() - i,
    {
        low.push(lower_ascii(chars[i]));
        i = i + 1;
    }
    let lowered = from_chars(&low);
    proof {
        assert(lowered@ =~= Seq::new(s@.len(), |i: int| ascii_lower(s@[i])));
    }
    str_eq(lowered.as_str(), "true") || str_eq(s, "1")
}

/// The skill of a file with the given content at the given path.
pub fn load_skill_from_content(content: &str, file_path: &str) -> (r: (
    Option<Skill>,
    Vec<SkillDiagnostic>,
))
    ensures
        match r.0 {
            Some(skill) => loaded_skill(content@, file_path@).0 == Some(skill@),
            None => loaded_skill(content@, file_path@).0 is None,
        },
        deep_views(r.1@) == loaded_skill(content@, file_path@).1,
{
    let (map, _) = parse_frontmatter(content);
    let dir = find_directory(file_path);
    let dir_name = file_name_of(dir.as_str());
    let name = match map.get("name") {
        Some(n) => n.clone(),
        None => match &dir_name {
            Some(n) => n.clone(),
            None => {
                let empty = String::new();
                proof {
                    assert(empty@ =~= Seq::<char>::empty());
                }
                empty
            },
        },
    };
    let check = match &dir_name {
        Some(n) => validate_name(name.as_str(), Some(n.as_str()), file_path),
        None => validate_name(name.as_str(), None, file_path),
    };
    let mut diagnostics = check.diagnostics;
    if check.skip {
        return (None, diagnostics);
    }
    let description = match map.get("description") {
        Some(d) => Some(trim_str(d.as_str())),
        None => None,
    };
    let description = match description {
        Some(d) if str_len(d.as_str()) > 0 => d,
        _ => {
            proof {
                if let Some(d) = description {
                    crate::text::lemma_empty_text(d@);
                }
            }
            note(
                &mut diagnostics,
                true,
                file_path,
                DiagnosticKind::Skipped,
                "description is required".to_owned(),
            );
            return (None, diagnostics);
        },
    };
    proof {
        crate::text::lemma_empty_text(description@);
    }
    note_description(&mut diagnostics, description.as_str(), file_path);
    let add_to_prompt = match map.get("advertise") {
        Some(v) => truthy(v.as_str()),
        None => false,
    };
    let skill = Skill { name, description, file_path: file_path.to_owned(), add_to_prompt };
    (Some(skill), diagnostics)
}

// ---------------------------------------------------------------------------
// Finding files
// ---------------------------------------------------------------------------

/// What an entry of a directory is. Links are not followed.
#[derive(Clone, Copy, Debug, PartialEq, Eq, Structural)]
pub enum FileKind {
    File,
    Directory,
    Link,
    /// Something else, or its kind cannot be read.
    Other,
}

/// An entry of a directory. A name that is no text is missing.
#[derive(Clone, Debug)]
pub struct Child {
    pub name: Option<String>,
    pub kind: FileKind,
}

/// What a [`Child`] says.
#[verifier::ext_equal]
pub struct ChildModel {
    pub name: Option<Seq<char>>,
    pub kind: FileKind,
}

impl View for Child {
    type V = ChildModel;

    open spec fn view(&self) -> ChildModel {
        ChildModel {
            name: match self.name {
                Some(n) => Some(n@),
                None => None,
            },
            kind: self.kind,
        }
    }
}

/// What is left to do of a search: take a file, or read a directory.
#[verifier::ext_equal]
pub enum StepModel {
    Take(Seq<char>),
    Read(Seq<char>),
}

/// What is left to do of a search.
#[derive(Clone, Debug)]
pub enum Step {
    Take(String),
    Read(String),
}

impl View for Step {
    type V = StepModel;

    open spec fn view(&self) -> StepModel {
        match self {
            Step::Take(p) => StepModel::Take(p@),
            Step::Read(p) => StepModel::Read(p@),
        }
    }
}

/// Whether an entry is the file that makes its directory a skill.
pub open spec fn is_skill_file(child: ChildModel) -> bool {
    child.name == Some(SKILL_FILENAME@) && child.kind is File
}

/// Whether a directory holds a `SKILL.md`.
pub open spec fn holds_skill(children: Seq<ChildModel>) -> bool {
    exists|i: int| 0 <= i < children.len() && is_skill_file(#[trigger] children[i])
}

/// Whether a search leaves out everything of this name.
pub open spec fn is_hidden(name: Seq<char>) -> bool {
    (name.len() > 0 && name[0] == '.') || name == "node_modules"@
}

/// What an entry asks of the search.
pub open spec fn child_steps(dir: Seq<char>, child: ChildModel, is_root: bool) -> Seq<StepModel> {
    match child.name {
        None => Seq::empty(),
        Some(name) => if is_hidden(name) {
            Seq::empty()
        } else if child.kind is Directory {
            seq![StepModel::Read(joined(dir, name))]
        } else if child.kind is File && is_root && ends_with(name, ".md"@) {
            seq![StepModel::Take(joined(dir, name))]
        } else {
            Seq::empty()
        },
    }
}

/// What the first `n` entries ask of the search.
pub open spec fn children_steps(
    dir: Seq<char>,
    children: Seq<ChildModel>,
    is_root: bool,
    n: nat,
) -> Seq<StepModel>
    decreases n,
{
    if n == 0 {
        Seq::empty()
    } else {
        children_steps(dir, children, is_root, (n - 1) as nat) + child_steps(
            dir,
            children[n - 1],
            is_root,
        )
    }
}

/// What a directory asks of the search: with a `SKILL.md` it is that skill and
/// nothing else. Otherwise its directories are searched, and in the root the
/// `.md` files are taken. A directory that cannot be read asks for nothing.
pub open spec fn directory_steps(
    dir: Seq<char>,
    children: Option<Seq<ChildModel>>,
    is_root: bool,
) -> Seq<StepModel> {
    match children {
        None => Seq::empty(),
        Some(all) => if holds_skill(all) {
            seq![StepModel::Take(joined(dir, SKILL_FILENAME@))]
        } else {
            children_steps(dir, all, is_root, all.len())
        },
    }
}

/// A search under way.
#[verifier::ext_equal]
pub struct DiscoveryModel {
    pub found: Seq<Seq<char>>,
    pub pending: Seq<StepModel>,
    pub at_root: bool,
}

/// The search of a directory before anything was read.
pub open spec fn fresh_search(root: Seq<char>) -> DiscoveryModel {
    DiscoveryModel {
        found: Seq::empty(),
        pending: seq![StepModel::Read(root)],
        at_root: true,
    }
}

/// The search once the files in front are taken.
pub open spec fn settled(m: DiscoveryModel) -> DiscoveryModel
    decreases m.pending.len(),
{
    if m.pending.len() == 0 {
        m
    } else {
        match m.pending[0] {
            StepModel::Take(p) => settled(
                DiscoveryModel {
                    found: m.found.push(p),
                    pending: m.pending.drop_first(),
                    at_root: m.at_root,
                },
            ),
            StepModel::Read(_) => m,
        }
    }
}

/// The search once a directory was read that had been in front.
pub open spec fn after_reading(
    m: DiscoveryModel,
    dir: Seq<char>,
    children: Option<Seq<ChildModel>>,
) -> DiscoveryModel {
    DiscoveryModel {
        found: m.found,
        pending: directory_steps(dir, children, m.at_root) + m.pending,
        at_root: false,
    }
}

/// What the entries of a listing say.
pub open spec fn child_views(children: Option<Vec<Child>>) -> Option<Seq<ChildModel>> {
    match children {
        Some(all) => Some(deep_views(all@)),
        None => None,
    }
}

/// A search for skills: it says which directory to read next, and is told what
/// that directory holds.
#[derive(Debug)]
pub struct Discovery {
    found: Vec<String>,
    /// What is left to do, the next step last.
    pending: Vec<Step>,
    at_root: bool,
}

impl View for Discovery {
    type V = DiscoveryModel;

    closed spec fn view(&self) -> DiscoveryModel {
        DiscoveryModel {
            found: deep_views(self.found@),
            pending: deep_views(self.pending@).reverse(),
            at_root: self.at_root,
        }
    }
}

/// Whether an entry makes its directory a skill.
fn skill_file(child: &Child) -> (r: bool)
    ensures
        r == is_skill_file(child@),
{
    match (&child.name, child.kind) {
        (Some(name), FileKind::File) => str_eq(name.as_str(), SKILL_FILENAME),
        _ => false,
    }
}

fn any_skill_file(children: &[Child]) -> (r: bool)
    ensures
        r == holds_skill(deep_views(children@)),
{
    let mut i: usize = 0;
    while i < children.len()
        invariant
            i <= children@.len(),
            forall|j: int| 0 <= j < i ==> !is_skill_file(#[trigger] deep_views(children@)[j]),
        decreases children@.len() - i,
    {
        if skill_file(&children[i]) {
            proof {
                assert(is_skill_file(deep_views(children@)[i as int]));
            }
            return true;
        }
        i = i + 1;
    }
    false
}

/// Whether a search leaves out everything of this name.
fn hidden(name: &str) -> (r: bool)
    ensures
        r == is_hidden(name@),
{
    let chars = to_chars(name);
    (chars.len() > 0 && chars[0] == '.') || str_eq(name, "node_modules")
}

/// What an entry asks of the search.
fn step_of(dir: &str, child: &Child, is_root: bool) -> (r: Option<Step>)
    ensures
        match r {
            Some(s) => child_steps(dir@, child@, is_root) == seq![s@],
            None => child_steps(dir@, child@, is_root) == Seq::<StepModel>::empty(),
        },
{
    let name = match &child.name {
        Some(name) => name,
        None => {
            return None;
        },
    };
    if hidden(name.as_str()) {
        return None;
    }
    match child.kind {
        FileKind::Directory => Some(Step::Read(join(dir, name.as_str()))),
        FileKind::File => {
            let chars = to_chars(name.as_str());
            let suffix = to_chars(".md");
            if is_root && has_suffix(&chars, &suffix) {
                Some(Step::Take(join(dir, name.as_str())))
            } else {
                None
            }
        },
        _ => None,
    }
}

impl Discovery {
    /// A search of the given directory.
    pub fn new(root: &str) -> (d: Self)
        ensures
            d@ == fresh_search(root@),
    {
        let d = Discovery {
            found: Vec::new(),
            pending: vec![Step::Read(root.to_owned())],
            at_root: true,
        };
        proof {
            assert(d@.found =~= Seq::<Seq<char>>::empty());
            assert(d@.pending =~= seq![StepModel::Read(root@)]);
        }
        d
    }

    /// The directory to read next; none once the search is over.
    pub fn next_directory(&mut self) -> (r: Option<String>)
        ensures
            match r {
                Some(dir) => {
                    let m = settled(old(self)@);
                    &&& m.pending.len() > 0
                    &&& m.pending[0] == StepModel::Read(dir@)
                    &&& final(self)@ == (DiscoveryModel { pending: m.pending.drop_first(), ..m })
                },
                None => final(self)@ == settled(old(self)@) && final(self)@.pending.len() == 0,
            },
    {
        loop
            invariant
                settled(self@) == settled(old(self)@),
            decreases self@.pending.len(),
        {
            let ghost before = self@;
            let ghost steps = self.pending@;
            let ghost taken = self.found@;
            match self.pending.pop() {
                None => {
                    proof {
                        assert(self@ =~= before);
                    }
                    return None;
                },
                Some(step) => {
                    proof {
                        assert(before.pending[0] == step@);
                        assert(self@.pending =~= before.pending.drop_first());
                    }
                    match step {
                        Step::Take(p) => {
                            self.found.push(p);
                            proof {
                                assert(self@.found =~= before.found.push(p@));
                            }
                        },
                        Step::Read(dir) => {
                            proof {
                                assert(self@.found == before.found);
                            }
                            return Some(dir);
                        },
                    }
                },
            }
        }
    }

    /// Takes in what a directory holds that was handed out before; nothing if it
    /// cannot be read.
    pub fn directory_read(&mut self, dir: &str, children: Option<Vec<Child>>)
        ensures
            final(self)@ == after_reading(old(self)@, dir@, child_views(children)),
    {
        let ghost before = self@;
        let ghost rest = deep_views(self.pending@);
        let is_root = self.at_root;
        self.at_root = false;
        let children = match children {
            Some(children) => children,
            None => {
                proof {
                    assert(self@.pending =~= Seq::<StepModel>::empty() + before.pending);
                }
                return;
            },
        };
        let ghost all = deep_views(children@);
        if any_skill_file(&children) {
            self.pending.push(Step::Take(join(dir, SKILL_FILENAME)));
            proof {
                assert(self@.pending =~= seq![
                    StepModel::Take(joined(dir@, SKILL_FILENAME@)),
                ] + before.pending);
            }
            return;
        }
        let mut i: usize = children.len();
        let ghost count = all.len();
        proof {
            assert(deep_views(self.pending@).reverse() =~= later_steps(
                dir@,
                all,
                is_root,
                i as nat,
            ) + rest.reverse());
        }
        while i > 0
            invariant
                i <= children@.len(),
                all == deep_views(children@),
                deep_views(self.pending@).reverse() == later_steps(dir@, all, is_root, i as nat)
                    + rest.reverse(),
                self.found == old(self).found,
                self.at_root == false,
            decreases i,
        {
            i = i - 1;
            let ghost steps = self.pending@;
            proof {
                assert(all[i as int] == children@[i as int]@);
            }
            match step_of(dir, &children[i], is_root) {
                Some(step) => {
                    self.pending.push(step);
                    proof {
                        assert(deep_views(self.pending@).reverse() =~= seq![step@] + deep_views(
                            steps,
                        ).reverse());
                        assert(deep_views(self.pending@).reverse() =~= later_steps(
                            dir@,
                            all,
                            is_root,
                            i as nat,
                        ) + rest.reverse());
                    }
                },
                None => {
                    proof {
                        assert(later_steps(dir@, all, is_root, i as nat) =~= later_steps(
                            dir@,
                            all,
                            is_root,
                            (i + 1) as nat,
                        ));
                    }
                },
            }
        }
        proof {
            lemma_later_steps(dir@, all, is_root, 0);
            assert(later_steps(dir@, all, is_root, 0) =~= children_steps(
                dir@,
                all,
                is_root,
                all.len(),
            ));
            assert(self@.found =~= before.found);
            assert(self@.pending =~= children_steps(dir@, all, is_root, all.len())
                + before.pending);
        }
    }

    /// The files found so far.
    pub fn found(&self) -> (paths: &Vec<String>)
        ensures
            deep_views(paths@) == self@.found,
    {
        &self.found
    }
}

/// What the entries from `n` on ask of the search.
spec fn later_steps(dir: Seq<char>, children: Seq<ChildModel>, is_root: bool, n: nat) -> Seq<
    StepModel,
>
    decreases children.len() - n,
{
    if n >= children.len() {
        Seq::empty()
    } else {
        child_steps(dir, children[n as int], is_root) + later_steps(dir, children, is_root, n + 1)
    }
}

proof fn lemma_later_steps(dir: Seq<char>, children: Seq<ChildModel>, is_root: bool, n: nat)
    requires
        n <= children.len(),
    ensures
        children_steps(dir, children, is_root, n) + later_steps(dir, children, is_root, n)
            == children_steps(dir, children, is_root, children.len()),
    decreases children.len() - n,
{
    if n < children.len() {
        lemma_later_steps(dir, children, is_root, n + 1);
        assert(children_steps(dir, children, is_root, n) + later_steps(dir, children, is_root, n)
            =~= children_steps(dir, children, is_root, n + 1) + later_steps(
            dir,
            children,
            is_root,
            n + 1,
        ));
    } else {
        assert(children_steps(dir, children, is_root, n) + Seq::<StepModel>::empty()
            =~= children_steps(dir, children, is_root, n));
    }
}

// ---------------------------------------------------------------------------
// Several files
// ---------------------------------------------------------------------------

/// A file that was found, with its content or why it cannot be read.
#[derive(Debug)]
pub struct SkillFile {
    pub path: String,
    pub content: Result<String, String>,
}

/// What a [`SkillFile`] says.
#[verifier::ext_equal]
pub struct SkillFileModel {
    pub path: Seq<char>,
    pub content: Result<Seq<char>, Seq<char>>,
}

impl View for SkillFile {
    type V = SkillFileModel;

    open spec fn view(&self) -> SkillFileModel {
        SkillFileModel {
            path: self.path@,
            content: match self.content {
                Ok(c) => Ok(c@),
                Err(e) => Err(e@),
            },
        }
    }
}

/// What was loaded so far: the skills by their names, and the diagnostics.
#[verifier::ext_equal]
pub struct LoadModel {
    pub by_name: Seq<(Seq<char>, SkillModel)>,
    pub diagnostics: Seq<DiagnosticModel>,
}

/// Nothing loaded.
pub open spec fn nothing_loaded() -> LoadModel {
    LoadModel { by_name: Seq::empty(), diagnostics: Seq::empty() }
}

/// What is loaded once one more file was looked at. A name that is taken stays
/// with the skill that has it.
pub open spec fn load_one(before: LoadModel, file: SkillFileModel) -> LoadModel {
    match file.content {
        Err(e) => LoadModel {
            by_name: before.by_name,
            diagnostics: before.diagnostics + noted(
                true,
                file.path,
                DiagnosticKind::Warning,
                "failed to read: "@ + e,
            ),
        },
        Ok(content) => {
            let (skill, diagnostics) = loaded_skill(content, file.path);
            match skill {
                None => LoadModel {
                    by_name: before.by_name,
                    diagnostics: before.diagnostics + diagnostics,
                },
                Some(s) => match lookup(before.by_name, s.name) {
                    Some(existing) => LoadModel {
                        by_name: before.by_name,
                        diagnostics: before.diagnostics + diagnostics + noted(
                            true,
                            file.path,
                            DiagnosticKind::Collision,
                            "name \""@ + s.name + "\" collision — keeping "@ + existing.file_path,
                        ),
                    },
                    None => LoadModel {
                        by_name: put(before.by_name, s.name, s),
                        diagnostics: before.diagnostics + diagnostics,
                    },
                },
            }
        },
    }
}

/// What is loaded of some files, one after the other.
pub open spec fn load_all(before: LoadModel, files: Seq<SkillFileModel>) -> LoadModel
    decreases files.len(),
{
    if files.len() == 0 {
        before
    } else {
        load_one(load_all(before, files.drop_last()), files.last())
    }
}

/// What is loaded of the files of several directories, one directory after the
/// other.
pub open spec fn load_dirs(dirs: Seq<Seq<SkillFileModel>>) -> LoadModel
    decreases dirs.len(),
{
    if dirs.len() == 0 {
        nothing_loaded()
    } else {
        load_all(load_dirs(dirs.drop_last()), dirs.last())
    }
}

/// The files of several directories.
pub open spec fn dir_views(dirs: Seq<Vec<SkillFile>>) -> Seq<Seq<SkillFileModel>> {
    Seq::new(dirs.len(), |i: int| deep_views(dirs[i]@))
}

/// The skills of one or more directories, in the order of their names.
#[derive(Debug)]
pub struct LoadSkillsResult {
    pub skills: Vec<Skill>,
    pub diagnostics: Vec<SkillDiagnostic>,
}

fn collision_message(name: &str, kept: &str) -> (s: String)
    ensures
        s@ == "name \""@ + name@ + "\" collision — keeping "@ + kept@,
{
    let mut s = "name \"".to_owned();
    s.append(name);
    s.append("\" collision — keeping ");
    s.append(kept);
    s
}

/// Appends all of `more`.
fn extend_diagnostics(out: &mut Vec<SkillDiagnostic>, more: Vec<SkillDiagnostic>)
    ensures
        deep_views(final(out)@) == deep_views(old(out)@) + deep_views(more@),
{
    let mut more = more;
    let ghost before = out@;
    let ghost tail = more@;
    out.append(&mut more);
    proof {
        assert(deep_views(out@) =~= deep_views(before) + deep_views(tail));
    }
}

/// Takes in one more file.
fn load_file(
    by_name: &mut TextMap<Skill>,
    diagnostics: &mut Vec<SkillDiagnostic>,
    file: &SkillFile,
)
    requires
        ordered(old(by_name)@),
    ensures
        ordered(final(by_name)@),
        (LoadModel { by_name: final(by_name)@, diagnostics: deep_views(final(diagnostics)@) })
            == load_one(
            LoadModel { by_name: old(by_name)@, diagnostics: deep_views(old(diagnostics)@) },
            file@,
        ),
{
    let content = match &file.content {
        Ok(content) => content,
        Err(e) => {
            let mut message = "failed to read: ".to_owned();
            message.append(e.as_str());
            note(
                diagnostics,
                true,
                file.path.as_str(),
                DiagnosticKind::Warning,
                message,
            );
            return;
        },
    };
    let (skill, more) = load_skill_from_content(content.as_str(), file.path.as_str());
    extend_diagnostics(diagnostics, more);
    if let Some(skill) = skill {
        let kept = match by_name.get(skill.name.as_str()) {
            Some(existing) => Some(existing.file_path.clone()),
            None => None,
        };
        match kept {
            Some(path) => {
                let message = collision_message(skill.name.as_str(), path.as_str());
                note(
                    diagnostics,
                    true,
                    file.path.as_str(),
                    DiagnosticKind::Collision,
                    message,
                );
            },
            None => {
                by_name.insert(skill.name.clone(), skill);
            },
        }
    }
}

/// Takes in the files of one directory.
fn load_files(
    by_name: &mut TextMap<Skill>,
    diagnostics: &mut Vec<SkillDiagnostic>,
    files: &[SkillFile],
)
    requires
        ordered(old(by_name)@),
    ensures
        ordered(final(by_name)@),
        (LoadModel { by_name: final(by_name)@, diagnostics: deep_views(final(diagnostics)@) })
            == load_all(
            LoadModel { by_name: old(by_name)@, diagnostics: deep_views(old(diagnostics)@) },
            deep_views(files@),
        ),
{
    let ghost start = LoadModel {
        by_name: by_name@,
        diagnostics: deep_views(diagnostics@),
    };
    let ghost all = deep_views(files@);
    let mut i: usize = 0;
    proof {
        assert(all.take(0) =~= Seq::<SkillFileModel>::empty());
    }
    while i < files.len()
        invariant
            i <= files@.len(),
            all == deep_views(files@),
            ordered(by_name@),
            (LoadModel { by_name: by_name@, diagnostics: deep_views(diagnostics@) }) == load_all(
                start,
                all.take(i as int),
            ),
        decreases files@.len() - i,
    {
        load_file(by_name, diagnostics, &files[i]);
        proof {
            assert(all.take(i + 1).drop_last() =~= all.take(i as int));
            assert(all.take(i + 1).last() == files@[i as int]@);
        }
        i = i + 1;
    }
    proof {
        assert(all.take(i as int) =~= all);
    }
}

/// Loads the skills of several directories, given the files found in each. The
/// first skill with a name wins.
pub fn load_skills_from_dirs(dirs: &[Vec<SkillFile>]) -> (r: LoadSkillsResult)
    ensures
        deep_views(r.skills@) == values_of(load_dirs(dir_views(dirs@)).by_name),
        deep_views(r.diagnostics@) == load_dirs(dir_views(dirs@)).diagnostics,
{
    let mut by_name: TextMap<Skill> = TextMap::new();
    let mut diagnostics: Vec<SkillDiagnostic> = Vec::new();
    let ghost all = dir_views(dirs@);
    let mut i: usize = 0;
    proof {
        assert(all.take(0) =~= Seq::<Seq<SkillFileModel>>::empty());
        assert(deep_views(diagnostics@) =~= Seq::<DiagnosticModel>::empty());
    }
    while i < dirs.len()
        invariant
            i <= dirs@.len(),
            all == dir_views(dirs@),
            ordered(by_name@),
            (LoadModel { by_name: by_name@, diagnostics: deep_views(diagnostics@) }) == load_dirs(
                all.take(i as int),
            ),
        decreases dirs@.len() - i,
    {
        load_files(&mut by_name, &mut diagnostics, dirs[i].as_slice());
        proof {
            assert(all.take(i + 1).drop_last() =~= all.take(i as int));
            assert(all.take(i + 1).last() == deep_views(dirs@[i as int]@));
        }
        i = i + 1;
    }
    proof {
        assert(all.take(i as int) =~= all);
    }
    LoadSkillsResult { skills: by_name.into_values(), diagnostics }
}

/// Loads the skills of one directory, given the files found in it.
pub fn load_skills_from_dir(files: Vec<SkillFile>) -> (r: LoadSkillsResult)
    ensures
        deep_views(r.skills@) == values_of(
            load_all(nothing_loaded(), deep_views(files@)).by_name,
        ),
        deep_views(r.diagnostics@) == load_all(nothing_loaded(), deep_views(files@)).diagnostics,
{
    let ghost one = deep_views(files@);
    let dirs = vec![files];
    proof {
        let all = dir_views(dirs@);
        assert(all =~= seq![one]);
        assert(all.drop_last() =~= Seq::<Seq<SkillFileModel>>::empty());
        assert(load_dirs(all.drop_last()) == nothing_loaded());
        assert(load_dirs(all) == load_all(nothing_loaded(), one));
    }
    load_skills_from_dirs(dirs.as_slice())
}

// ---------------------------------------------------------------------------
// Laws
// ---------------------------------------------------------------------------

/// A file gives a skill exactly when its name is usable and it has a
/// description, and it is noted that it was skipped exactly when it gives none.
pub proof fn law_skill_or_reason(content: Seq<char>, path: Seq<char>)
    ensures
        loaded_skill(content, path).0 is Some <==> {
            &&& usable_name(skill_name(frontmatter(content).0, path))
            &&& skill_description(frontmatter(content).0) is Some
        },
        loaded_skill(content, path).0 is None <==> exists|i: int|
            0 <= i < loaded_skill(content, path).1.len() && (#[trigger] loaded_skill(
                content,
                path,
            ).1[i]).kind is Skipped,
{
    let map = frontmatter(content).0;
    let name = skill_name(map, path);
    let d = loaded_skill(content, path).1;
    let named = name_diagnostics(name, parent_name(path), path);
    lemma_name_skips(name, parent_name(path), path);
    if !usable_name(name) {
        let i = choose|i: int| 0 <= i < named.len() && (#[trigger] named[i]).kind is Skipped;
        assert(d[i].kind is Skipped);
    } else if skill_description(map) is None {
        assert(d[named.len() as int].kind is Skipped);
    } else {
        assert forall|i: int| 0 <= i < d.len() implies !((#[trigger] d[i]).kind is Skipped) by {
            if i < named.len() {
                assert(d[i] == named[i]);
            }
        }
    }
}

proof fn lemma_name_skips(name: Seq<char>, parent_name: Option<Seq<char>>, path: Seq<char>)
    ensures
        usable_name(name) <==> forall|i: int|
            0 <= i < name_diagnostics(name, parent_name, path).len() ==> !((
            #[trigger] name_diagnostics(name, parent_name, path)[i]).kind is Skipped),
{
    let all = name_diagnostics(name, parent_name, path);
    if name.len() == 0 {
        assert(all[0].kind is Skipped);
    } else {
        let mismatch = match parent_name {
            Some(p) => noted(
                name != p,
                path,
                DiagnosticKind::Warning,
                "name \""@ + name + "\" does not match parent directory \""@ + p + "\""@,
            ),
            None => Seq::empty(),
        };
        if usable_name(name) {
            assert(all =~= mismatch);
        } else {
            assert(all[mismatch.len() as int].kind is Skipped);
        }
    }
}

/// The names of the loaded skills ascend, and every skill stands under its own
/// name, so no two of them share one.
pub proof fn law_names_are_distinct(dirs: Seq<Seq<SkillFileModel>>)
    ensures
        ordered(load_dirs(dirs).by_name),
        forall|i: int|
            0 <= i < load_dirs(dirs).by_name.len() ==> (#[trigger] load_dirs(dirs).by_name[i]).1.name
                == load_dirs(dirs).by_name[i].0,
    decreases dirs.len(),
{
    if dirs.len() > 0 {
        law_names_are_distinct(dirs.drop_last());
        lemma_load_all_names(load_dirs(dirs.drop_last()), dirs.last());
    }
}

/// Whether every skill stands under its own name.
spec fn own_names(by_name: Seq<(Seq<char>, SkillModel)>) -> bool {
    forall|i: int| 0 <= i < by_name.len() ==> (#[trigger] by_name[i]).1.name == by_name[i].0
}

proof fn lemma_load_all_names(before: LoadModel, files: Seq<SkillFileModel>)
    requires
        ordered(before.by_name),
        own_names(before.by_name),
    ensures
        ordered(load_all(before, files).by_name),
        own_names(load_all(before, files).by_name),
    decreases files.len(),
{
    if files.len() > 0 {
        lemma_load_all_names(before, files.drop_last());
        let m = load_all(before, files.drop_last());
        if let Ok(content) = files.last().content {
            if let Some(s) = loaded_skill(content, files.last().path).0 {
                crate::table::law_put_binds_one_key(m.by_name, s.name, s, s.name);
                lemma_put_names(m.by_name, s);
            }
        }
    }
}

proof fn lemma_put_names(by_name: Seq<(Seq<char>, SkillModel)>, s: SkillModel)
    requires
        own_names(by_name),
    ensures
        own_names(put(by_name, s.name, s)),
    decreases by_name.len(),
{
    let out = put(by_name, s.name, s);
    if by_name.len() == 0 || crate::text::text_lt(s.name, by_name[0].0) {
        assert forall|i: int| 0 <= i < out.len() implies (#[trigger] out[i]).1.name
            == out[i].0 by {
            if i > 0 {
                assert(out[i] == by_name[i - 1]);
            }
        }
    } else {
        let rest = by_name.drop_first();
        assert(own_names(rest)) by {
            assert forall|i: int| 0 <= i < rest.len() implies (#[trigger] rest[i]).1.name
                == rest[i].0 by {
                assert(rest[i] == by_name[i + 1]);
            }
        }
        lemma_put_names(rest, s);
        assert forall|i: int| 0 <= i < out.len() implies (#[trigger] out[i]).1.name
            == out[i].0 by {
            if i == 0 {
                assert(by_name[0].1.name == by_name[0].0);
            } else if by_name[0].0 == s.name {
                assert(out[i] == rest[i - 1]);
            } else {
                assert(out[i] == put(rest, s.name, s)[i - 1]);
            }
        }
    }
}

/// The first skill with a name wins: whatever is loaded later, it stays.
pub proof fn law_first_skill_wins(before: LoadModel, files: Seq<SkillFileModel>, name: Seq<char>)
    requires
        ordered(before.by_name),
        lookup(before.by_name, name) is Some,
    ensures
        lookup(load_all(before, files).by_name, name) == lookup(before.by_name, name),
        ordered(load_all(before, files).by_name),
    decreases files.len(),
{
    if files.len() > 0 {
        law_first_skill_wins(before, files.drop_last(), name);
        let m = load_all(before, files.drop_last());
        if let Ok(content) = files.last().content {
            if let Some(s) = loaded_skill(content, files.last().path).0 {
                crate::table::law_put_binds_one_key(m.by_name, s.name, s, name);
            }
        }
    }
}

/// A text without a frontmatter is its own body as it came, a byte order mark
/// included, and has no fields.
pub proof fn law_plain_text_is_body(content: Seq<char>)
    requires
        !has_frontmatter(content),
    ensures
        frontmatter(content).0.len() == 0,
        frontmatter(content).1 == content,
{
}

/// The body is how the text ends: nothing is added to it, and nothing behind the
/// frontmatter is lost.
pub proof fn law_body_ends_the_text(content: Seq<char>)
    ensures
        ends_with(content, frontmatter(content).1),
{
    let s = without_mark(content);
    let body = frontmatter(content).1;
    if !has_frontmatter(content) {
        assert(content.skip(0) =~= content);
    } else {
        lemma_mark_suffix(content);
        let n = opening(s);
        let rest = s.skip(n);
        lemma_closing_bounds(rest, 0);
        if let Some((end, start)) = closing(rest, 0) {
            assert(body == rest.skip(start));
            let k = content.len() - s.len();
            assert(content.skip(k) =~= s);
            assert(content.skip(content.len() - body.len()) =~= body) by {
                assert forall|i: int| 0 <= i < body.len() implies content.skip(
                    content.len() - body.len(),
                )[i] == body[i] by {
                    assert(body[i] == s[n + start + i]);
                    assert(s[n + start + i] == content.skip(k)[n + start + i]);
                }
            }
        }
    }
}

proof fn lemma_mark_suffix(content: Seq<char>)
    ensures
        without_mark(content).len() <= content.len(),
        ends_with(content, without_mark(content)),
{
    let s = without_mark(content);
    assert(content.skip(content.len() - s.len()) =~= s);
}

proof fn lemma_closing_bounds(s: Seq<char>, pos: int)
    requires
        0 <= pos,
    ensures
        closing(s, pos) matches Some((end, start)) ==> pos <= end < start <= s.len(),
    decreases s.len() - pos,
{
    if pos < s.len() {
        lemma_find_char_props(s.skip(pos), '\n');
        if trim(s.subrange(pos, line_end(s, pos))) != seq!['-', '-', '-'] {
            lemma_closing_bounds(s, line_end(s, pos));
        }
    }
}

/// A tree of directories: what each directory holds, if it can be read.
pub type Listing = spec_fn(Seq<char>) -> Option<Seq<ChildModel>>;

/// The files that the steps lead to, each directory searched where it stands,
/// up to a depth.
pub open spec fn reached(fs: Listing, steps: Seq<StepModel>, is_root: bool, depth: nat) -> Seq<
    Seq<char>,
>
    decreases depth, steps.len(),
{
    if steps.len() == 0 {
        Seq::empty()
    } else {
        let here = match steps[0] {
            StepModel::Take(p) => seq![p],
            StepModel::Read(d) => if depth == 0 {
                Seq::empty()
            } else {
                reached(fs, directory_steps(d, fs(d), is_root), false, (depth - 1) as nat)
            },
        };
        here + reached(fs, steps.drop_first(), false, depth)
    }
}

/// Whether no directory lies deeper than `depth`.
pub open spec fn shallow(fs: Listing, steps: Seq<StepModel>, is_root: bool, depth: nat) -> bool
    decreases depth, steps.len(),
{
    if steps.len() == 0 {
        true
    } else {
        let here = match steps[0] {
            StepModel::Take(_) => true,
            StepModel::Read(d) => depth > 0 && shallow(
                fs,
                directory_steps(d, fs(d), is_root),
                false,
                (depth - 1) as nat,
            ),
        };
        here && shallow(fs, steps.drop_first(), false, depth)
    }
}

/// Where the search is after some rounds of asking for a directory and handing
/// it over.
pub open spec fn searched(fs: Listing, m: DiscoveryModel, rounds: nat) -> DiscoveryModel
    decreases rounds,
{
    let s = settled(m);
    if rounds == 0 || s.pending.len() == 0 {
        s
    } else {
        match s.pending[0] {
            StepModel::Read(d) => searched(
                fs,
                after_reading(
                    DiscoveryModel { pending: s.pending.drop_first(), ..s },
                    d,
                    fs(d),
                ),
                (rounds - 1) as nat,
            ),
            StepModel::Take(_) => s,
        }
    }
}

/// How many directories are read.
pub open spec fn reads(fs: Listing, steps: Seq<StepModel>, is_root: bool, depth: nat) -> nat
    decreases depth, steps.len(),
{
    if steps.len() == 0 {
        0
    } else {
        let here = match steps[0] {
            StepModel::Take(_) => 0nat,
            StepModel::Read(d) => if depth == 0 {
                0
            } else {
                1 + reads(fs, directory_steps(d, fs(d), is_root), false, (depth - 1) as nat)
            },
        };
        here + reads(fs, steps.drop_first(), false, depth)
    }
}

/// A search of a tree of finite depth ends, after reading every directory that
/// is to be read once, and finds what searching each directory in its place
/// finds.
pub proof fn law_search_finds_every_skill(fs: Listing, root: Seq<char>, depth: nat)
    requires
        shallow(fs, seq![StepModel::Read(root)], true, depth),
    ensures
        ({
            let steps = seq![StepModel::Read(root)];
            let end = searched(fs, fresh_search(root), reads(fs, steps, true, depth));
            &&& end.pending.len() == 0
            &&& end.found == reached(fs, steps, true, depth)
        }),
{
    let steps = seq![StepModel::Read(root)];
    let m = fresh_search(root);
    lemma_search(fs, m, steps, Seq::empty(), depth, 0);
    assert(steps + Seq::<StepModel>::empty() =~= steps);
    let end = DiscoveryModel {
        found: m.found + reached(fs, steps, true, depth),
        pending: Seq::empty(),
        at_root: false,
    };
    assert(m.found + reached(fs, steps, true, depth) =~= reached(fs, steps, true, depth));
}

/// Searching through `steps` in front of `rest` adds what they lead to, and
/// leaves `rest`.
proof fn lemma_search(
    fs: Listing,
    m: DiscoveryModel,
    steps: Seq<StepModel>,
    rest: Seq<StepModel>,
    depth: nat,
    more: nat,
)
    requires
        m.pending == steps + rest,
        shallow(fs, steps, m.at_root, depth),
        m.at_root ==> steps.len() == 1 && rest.len() == 0 && steps[0] is Read,
    ensures
        searched(fs, m, reads(fs, steps, m.at_root, depth) + more) == searched(
            fs,
            DiscoveryModel {
                found: m.found + reached(fs, steps, m.at_root, depth),
                pending: rest,
                at_root: false,
            },
            more,
        ),
    decreases depth, steps.len(),
{
    if steps.len() == 0 {
        assert(m.pending =~= rest);
        assert(m.found + Seq::<Seq<char>>::empty() =~= m.found);
    } else {
        let tail = steps.drop_first();
        assert(m.pending[0] == steps[0]);
        assert(m.pending.drop_first() =~= tail + rest);
        match steps[0] {
            StepModel::Take(p) => {
                let next = DiscoveryModel {
                    found: m.found.push(p),
                    pending: tail + rest,
                    at_root: m.at_root,
                };
                assert(settled(m) == settled(next));
                lemma_search(fs, next, tail, rest, depth, more);
                assert(next.found + reached(fs, tail, false, depth) =~= m.found + reached(
                    fs,
                    steps,
                    false,
                    depth,
                ));
                assert(searched(fs, m, reads(fs, tail, false, depth) + more) == searched(
                    fs,
                    next,
                    reads(fs, tail, false, depth) + more,
                ));
            },
            StepModel::Read(d) => {
                let inner = directory_steps(d, fs(d), m.at_root);
                let inner_reads = reads(fs, inner, false, (depth - 1) as nat);
                let tail_reads = reads(fs, tail, false, depth);
                let taken = DiscoveryModel { pending: tail + rest, ..m };
                let next = after_reading(taken, d, fs(d));
                assert(settled(m) == m);
                assert(next.pending =~= inner + (tail + rest));
                let rounds = reads(fs, steps, m.at_root, depth) + more;
                assert(rounds == 1 + inner_reads + tail_reads + more);
                assert(searched(fs, m, rounds) == searched(fs, next, (rounds - 1) as nat));
                lemma_search(fs, next, inner, tail + rest, (depth - 1) as nat, tail_reads + more);
                assert((rounds - 1) as nat == inner_reads + (tail_reads + more));
                let between = DiscoveryModel {
                    found: m.found + reached(fs, inner, false, (depth - 1) as nat),
                    pending: tail + rest,
                    at_root: false,
                };
                lemma_search(fs, between, tail, rest, depth, more);
                assert(between.found + reached(fs, tail, false, depth) =~= m.found + reached(
                    fs,
                    steps,
                    m.at_root,
                    depth,
                ));
            },
        }
    }
}

/// The value of a field is kept in full: a line of a key, a colon and a value gives
/// the value without the white space around it and without one pair of quotes, and
/// nothing else of it is left out.
pub proof fn law_field_keeps_its_value(
    before: Seq<char>,
    key: Seq<char>,
    after: Seq<char>,
    value: Seq<char>,
)
    requires
        all_white(before),
        all_white(after),
        key.len() > 0,
        !key.contains(':'),
        key[0] != '#',
        !is_white(key[0]),
        !is_white(key.last()),
    ensures
        ({
            let v = trim(value);
            let quoted = v.len() >= 2 && v[0] == v[v.len() - 1] && (v[0] == '"' || v[0] == '\'');
            field(before + key + after + seq![':'] + value) == Some(
                (
                    key,
                    if quoted {
                        v.subrange(1, v.len() - 1)
                    } else {
                        v
                    },
                ),
            )
        }),
{
    let v = trim(value);
    let none = Seq::<char>::empty();
    let colon = seq![':'];
    let line = before + key + after + colon + value;
    law_trim_takes_outer_white_space(value);
    let (p, q) = choose|p: Seq<char>, q: Seq<char>|
        value == #[trigger] (p + trim(value) + q) && all_white(p) && all_white(q);
    let core = if v.len() > 0 {
        key + after + colon + p + v
    } else {
        key + after + colon
    };
    if v.len() > 0 {
        assert(core[0] == key[0]);
        assert(core.last() == v.last());
        law_trim_undoes_padding(before, core, q);
        assert(before + core + q =~= line);
    } else {
        assert(core[0] == key[0]);
        assert(core.last() == ':');
        assert(!is_white(':'));
        assert(all_white(value)) by {
            assert forall|i: int| 0 <= i < value.len() implies is_white(#[trigger] value[i]) by {
                assert(value =~= p + q);
                if i < p.len() {
                    assert(p[i] == value[i]);
                } else {
                    assert(q[i - p.len()] == value[i]);
                }
            }
        }
        law_trim_undoes_padding(before, core, value);
        assert(before + core + value =~= line);
    }
    assert(trim(line) == core);
    let k = (key.len() + after.len()) as int;
    assert forall|j: int| 0 <= j < k implies core[j] != ':' by {
        if j < key.len() {
            assert(core[j] == key[j]);
            if key[j] == ':' {
                assert(key.contains(':'));
            }
        } else {
            assert(core[j] == after[j - key.len()]);
            assert(is_white(after[j - key.len()]));
            assert(!is_white(':'));
        }
    }
    assert(core[k] == ':');
    crate::text::lemma_find_char(core, ':', k);
    assert(core.take(k) =~= none + key + after);
    law_trim_undoes_padding(none, key, after);
    if v.len() > 0 {
        assert(core.skip(k + 1) =~= p + v + none);
        law_trim_undoes_padding(p, v, none);
    } else {
        assert(core.skip(k + 1) =~= none + none + none);
        law_trim_undoes_padding(none, none, none);
        assert(v =~= none);
    }
}

/// Blank lines, comments and lines without a colon or without a key say nothing.
pub proof fn law_other_lines_say_nothing(line: Seq<char>)
    requires
        trim(line).len() == 0 || trim(line)[0] == '#' || !trim(line).contains(':')
            || trim(line)[0] == ':',
    ensures
        field(line) is None,
{
    let t = trim(line);
    lemma_find_char_props(t, ':');
    if t.len() > 0 && t[0] != '#' {
        let k = find_char(t, ':');
        if k < t.len() {
            assert(t.contains(t[k]));
            if t[0] == ':' {
                assert(t.take(0) =~= Seq::<char>::empty());
                law_trim_undoes_padding(Seq::empty(), Seq::empty(), Seq::empty());
                assert(Seq::<char>::empty() + Seq::<char>::empty() + Seq::<char>::empty()
                    =~= Seq::<char>::empty());
            }
        }
    }
}

/// The value of a key is that of the last line with the key, and a key that stands in
/// no line has none.
pub proof fn law_last_field_counts(all: Seq<Seq<char>>, key: Seq<char>)
    ensures
        ordered(fields(all)),
        match lookup(fields(all), key) {
            Some(v) => exists|i: int|
                0 <= i < all.len() && field(#[trigger] all[i]) == Some((key, v)) && forall|j: int|
                    i < j < all.len() ==> (field(#[trigger] all[j]) matches Some((k, _)) ==> k
                        != key),
            None => forall|j: int|
                0 <= j < all.len() ==> (field(#[trigger] all[j]) matches Some((k, _)) ==> k
                    != key),
        },
    decreases all.len(),
{
    if all.len() > 0 {
        let front = all.drop_last();
        let n = all.len() - 1;
        law_last_field_counts(front, key);
        assert forall|j: int| 0 <= j < n implies #[trigger] all[j] == front[j] by {}
        assert(all[n] == all.last());
        if let Some((k, v)) = field(all.last()) {
            crate::table::law_put_binds_one_key(fields(front), k, v, key);
        }
        if !(field(all.last()) matches Some((k, _)) && k == key) {
            if let Some(v) = lookup(fields(front), key) {
                let i = choose|i: int|
                    0 <= i < front.len() && field(#[trigger] front[i]) == Some((key, v))
                        && forall|j: int|
                        i < j < front.len() ==> (field(#[trigger] front[j]) matches Some((k, _))
                            ==> k != key);
                assert(field(all[i]) == Some((key, v)));
            }
        }
    }
}

/// Lines, each with a line break behind it.
pub open spec fn block(all: Seq<Seq<char>>) -> Seq<char>
    decreases all.len(),
{
    if all.len() == 0 {
        Seq::empty()
    } else {
        all[0] + seq!['\n'] + block(all.drop_first())
    }
}

/// Whether a text is one line of a frontmatter: without a line break, and no fence.
pub open spec fn is_inner_line(line: Seq<char>) -> bool {
    !line.contains('\n') && trim(line) != seq!['-', '-', '-']
}

/// A frontmatter between two fences gives the fields of its lines, and what follows
/// the line of the second fence is the body. A byte order mark may stand in front,
/// and white space around the second fence.
pub proof fn law_frontmatter_is_read_between_fences(
    mark: bool,
    windows: bool,
    all: Seq<Seq<char>>,
    fence: Seq<char>,
    ended: bool,
    body: Seq<char>,
)
    requires
        forall|i: int| 0 <= i < all.len() ==> is_inner_line(#[trigger] all[i]),
        !fence.contains('\n'),
        trim(fence) == seq!['-', '-', '-'],
        !ended ==> body.len() == 0,
    ensures
        ({
            let content = (if mark {
                seq!['\u{feff}']
            } else {
                Seq::empty()
            }) + (if windows {
                seq!['-', '-', '-', '\r', '\n']
            } else {
                seq!['-', '-', '-', '\n']
            }) + (block(all) + fence + (if ended {
                seq!['\n']
            } else {
                Seq::empty()
            }) + body);
            frontmatter(content) == (fields(all), body)
        }),
{
    let first = if mark {
        seq!['\u{feff}']
    } else {
        Seq::empty()
    };
    let open = if windows {
        seq!['-', '-', '-', '\r', '\n']
    } else {
        seq!['-', '-', '-', '\n']
    };
    let tail = (if ended {
        seq!['\n']
    } else {
        Seq::empty()
    }) + body;
    let rest = block(all) + fence + (if ended {
        seq!['\n']
    } else {
        Seq::empty()
    }) + body;
    let content = first + open + rest;
    assert(rest =~= block(all) + fence + tail);
    assert(without_mark(content) =~= open + rest) by {
        if mark {
            assert(content[0] == '\u{feff}');
            assert(content.drop_first() =~= open + rest);
        } else {
            assert(content =~= open + rest);
            assert(content[0] == '-');
        }
    }
    let s = open + rest;
    assert(opening(s) == open.len()) by {
        if windows {
            assert(s.take(5) =~= open);
            assert(s.take(4)[3] == '\r');
            assert(seq!['-', '-', '-', '\n'][3] == '\n');
        } else {
            assert(s.take(4) =~= open);
        }
    }
    assert(s.skip(opening(s)) =~= rest);
    lemma_closing_found(Seq::empty(), all, fence, tail, ended);
    assert(Seq::<char>::empty() + block(all) + fence + tail =~= rest);
    let end = block(all).len() as int;
    assert(rest.take(end) =~= block(all));
    lemma_block_fields(all);
    let start = end + fence.len() + (if ended {
        1int
    } else {
        0int
    });
    assert(rest.skip(start) =~= body);
}

proof fn lemma_closing_found(
    done: Seq<char>,
    all: Seq<Seq<char>>,
    fence: Seq<char>,
    tail: Seq<char>,
    ended: bool,
)
    requires
        forall|i: int| 0 <= i < all.len() ==> is_inner_line(#[trigger] all[i]),
        !fence.contains('\n'),
        trim(fence) == seq!['-', '-', '-'],
        if ended {
            tail.len() > 0 && tail[0] == '\n'
        } else {
            tail.len() == 0
        },
    ensures
        ({
            let end = (done.len() + block(all).len()) as int;
            closing(done + block(all) + fence + tail, done.len() as int) == Some(
                (
                    end,
                    end + fence.len() + if ended {
                        1int
                    } else {
                        0int
                    },
                ),
            )
        }),
    decreases all.len(),
{
    let s = done + block(all) + fence + tail;
    let pos = done.len() as int;
    if all.len() == 0 {
        let rest = s.skip(pos);
        assert(rest =~= fence + tail);
        law_trim_takes_outer_white_space(fence);
        assert(fence.len() > 0) by {
            if fence.len() == 0 {
                assert(fence =~= Seq::<char>::empty());
                assert(trim(fence).len() == 0);
                assert(seq!['-', '-', '-'].len() == 3);
            }
        }
        assert forall|j: int| 0 <= j < fence.len() implies rest[j] != '\n' by {
            assert(rest[j] == fence[j]);
            if fence[j] == '\n' {
                assert(fence.contains('\n'));
            }
        }
        if ended {
            assert(rest[fence.len() as int] == tail[0]);
            crate::text::lemma_find_char(rest, '\n', fence.len() as int);
            let line = s.subrange(pos, line_end(s, pos));
            assert(line =~= fence + seq!['\n']);
            lemma_trim_push_white(fence, '\n');
            assert(line =~= fence.push('\n'));
        } else {
            crate::text::lemma_find_char(rest, '\n', fence.len() as int);
            let line = s.subrange(pos, line_end(s, pos));
            assert(line =~= fence);
        }
    } else {
        let first = all[0];
        let others = all.drop_first();
        let rest = s.skip(pos);
        assert(rest =~= first + seq!['\n'] + (block(others) + fence + tail));
        assert forall|j: int| 0 <= j < first.len() implies rest[j] != '\n' by {
            assert(rest[j] == first[j]);
            if first[j] == '\n' {
                assert(all[0].contains('\n'));
            }
        }
        assert(rest[first.len() as int] == '\n');
        crate::text::lemma_find_char(rest, '\n', first.len() as int);
        let e = line_end(s, pos);
        assert(e == pos + first.len() + 1);
        let line = s.subrange(pos, e);
        assert(line =~= first.push('\n'));
        lemma_trim_push_white(first, '\n');
        assert(is_inner_line(all[0]));
        let more = done + first + seq!['\n'];
        assert forall|i: int| 0 <= i < others.len() implies is_inner_line(#[trigger] others[i]) by {
            assert(others[i] == all[i + 1]);
        }
        lemma_closing_found(more, others, fence, tail, ended);
        assert(more + block(others) + fence + tail =~= s);
    }
}

proof fn lemma_trim_push_white(s: Seq<char>, c: char)
    requires
        is_white(c),
    ensures
        trim(s.push(c)) == trim(s),
{
    law_trim_takes_outer_white_space(s);
    let (a, b) = choose|a: Seq<char>, b: Seq<char>|
        s == #[trigger] (a + trim(s) + b) && all_white(a) && all_white(b);
    assert(s.push(c) =~= a + trim(s) + b.push(c));
    law_trim_undoes_padding(a, trim(s), b.push(c));
}

proof fn lemma_block_fields(all: Seq<Seq<char>>)
    requires
        forall|i: int| 0 <= i < all.len() ==> is_inner_line(#[trigger] all[i]),
    ensures
        fields(lines(block(all))) == fields(all),
{
    lemma_block_lines(all);
    let stripped = all.map_values(|l: Seq<char>| strip_cr(l));
    lemma_same_fields(stripped, all);
}

proof fn lemma_same_fields(a: Seq<Seq<char>>, b: Seq<Seq<char>>)
    requires
        a.len() == b.len(),
        forall|i: int| 0 <= i < a.len() ==> #[trigger] a[i] == strip_cr(b[i]),
    ensures
        fields(a) == fields(b),
    decreases a.len(),
{
    if a.len() > 0 {
        lemma_same_fields(a.drop_last(), b.drop_last());
        let x = b.last();
        assert(a[a.len() - 1] == strip_cr(b[b.len() - 1]));
        if x.len() > 0 && x.last() == '\r' {
            lemma_trim_push_white(x.drop_last(), '\r');
            assert(x.drop_last().push('\r') =~= x);
        }
    }
}

proof fn lemma_block_lines(all: Seq<Seq<char>>)
    requires
        forall|i: int| 0 <= i < all.len() ==> is_inner_line(#[trigger] all[i]),
    ensures
        lines(block(all)) == all.map_values(|l: Seq<char>| strip_cr(l)),
    decreases all.len(),
{
    let stripped = all.map_values(|l: Seq<char>| strip_cr(l));
    if all.len() == 0 {
        assert(stripped =~= Seq::<Seq<char>>::empty());
    } else {
        let first = all[0];
        let others = all.drop_first();
        let s = block(all);
        assert forall|j: int| 0 <= j < first.len() implies s[j] != '\n' by {
            assert(s[j] == first[j]);
            if first[j] == '\n' {
                assert(all[0].contains('\n'));
            }
        }
        assert(s[first.len() as int] == '\n');
        crate::text::lemma_find_char(s, '\n', first.len() as int);
        assert(s.take(first.len() as int) =~= first);
        assert(s.skip(first.len() as int + 1) =~= block(others));
        assert forall|i: int| 0 <= i < others.len() implies is_inner_line(#[trigger] others[i]) by {
            assert(others[i] == all[i + 1]);
        }
        lemma_block_lines(others);
        assert(stripped =~= seq![strip_cr(first)] + others.map_values(
            |l: Seq<char>| strip_cr(l),
        ));
    }
}

/// A skill says what its file says: the name of its field, or of its directory, the
/// description without the white space around it, its path, and to be advertised
/// where the field is `1` or `true` in any letter case.
pub proof fn law_skill_says_what_its_file_says(content: Seq<char>, path: Seq<char>)
    ensures
        loaded_skill(content, path).0 matches Some(skill) ==> {
            let map = frontmatter(content).0;
            &&& skill.file_path == path
            &&& match lookup(map, "name"@) {
                Some(n) => skill.name == n,
                None => match parent(path) {
                    Some(dir) => file_name(dir) == Some(skill.name),
                    None => file_name(path) == Some(skill.name),
                },
            }
            &&& lookup(map, "description"@) matches Some(d) && skill.description == trim(d)
            &&& skill.description.len() > 0
            &&& skill.add_to_prompt == match lookup(map, "advertise"@) {
                Some(v) => v == seq!['1'] || (v.len() == 4 && (v[0] == 't' || v[0] == 'T') && (v[1]
                    == 'r' || v[1] == 'R') && (v[2] == 'u' || v[2] == 'U') && (v[3] == 'e' || v[3]
                    == 'E')),
                None => false,
            }
        },
{
    let map = frontmatter(content).0;
    if let Some(v) = lookup(map, "advertise"@) {
        lemma_truthy(v);
    }
}

proof fn lemma_truthy(v: Seq<char>)
    ensures
        is_truthy(Some(v)) == (v == seq!['1'] || (v.len() == 4 && (v[0] == 't' || v[0] == 'T') && (
        v[1] == 'r' || v[1] == 'R') && (v[2] == 'u' || v[2] == 'U') && (v[3] == 'e' || v[3]
            == 'E'))),
{
    reveal_strlit("true");
    reveal_strlit("1");
    assert("1"@ =~= seq!['1']);
    let low = Seq::new(v.len(), |i: int| ascii_lower(v[i]));
    assert("true"@ =~= seq!['t', 'r', 'u', 'e']);
    if v.len() == 4 {
        assert(low[0] == ascii_lower(v[0]) && low[1] == ascii_lower(v[1]) && low[2] == ascii_lower(
            v[2],
        ) && low[3] == ascii_lower(v[3]));
        lemma_lower_is(v[0], 't', 'T');
        lemma_lower_is(v[1], 'r', 'R');
        lemma_lower_is(v[2], 'u', 'U');
        lemma_lower_is(v[3], 'e', 'E');
        assert(low == "true"@ <==> (low[0] == 't' && low[1] == 'r' && low[2] == 'u' && low[3]
            == 'e')) by {
            if low[0] == 't' && low[1] == 'r' && low[2] == 'u' && low[3] == 'e' {
                assert(low =~= "true"@);
            } else {
                assert("true"@[0] == 't' && "true"@[1] == 'r' && "true"@[2] == 'u' && "true"@[3]
                    == 'e');
            }
        }
    } else {
        assert(low.len() == v.len());
        assert("true"@.len() == 4);
    }
}

proof fn lemma_lower_is(c: char, low: char, high: char)
    requires
        'a' <= low <= 'z',
        low as u32 == high as u32 + 32,
    ensures
        ascii_lower(c) == low <==> c == low || c == high,
{
    if 'A' <= c <= 'Z' {
        let code = (c as u32 + 32) as u32;
        assert((c as u32 + 32) as char as u32 == code);
        vstd::utf8::char_u32_cast(c, c as u32);
        vstd::utf8::char_u32_cast(high, high as u32);
    }
}

/// The names that a skill can have: 1 to 64 lower case letters, digits and hyphens,
/// where a hyphen stands between two other characters.
pub proof fn law_usable_names(name: Seq<char>)
    ensures
        usable_name(name) <==> {
            &&& 1 <= name.len() <= 64
            &&& forall|i: int|
                0 <= i < name.len() ==> ('a' <= #[trigger] name[i] <= 'z') || ('0' <= name[i]
                    <= '9') || (name[i] == '-' && 0 < i < name.len() - 1 && name[i - 1] != '-')
        },
{
    let fine = forall|i: int| 0 <= i < name.len() ==> is_name_char(#[trigger] name[i]);
    if fine {
        lemma_name_bytes(name);
    }
    if usable_name(name) {
        assert forall|i: int| 0 <= i < name.len() implies ('a' <= #[trigger] name[i] <= 'z') || (
        '0' <= name[i] <= '9') || (name[i] == '-' && 0 < i < name.len() - 1 && name[i - 1]
            != '-') by {
            assert(is_name_char(name[i]));
            if name[i] == '-' && i > 0 {
                let j = i - 1;
                assert(!(name[j] == '-' && name[i] == '-'));
            }
        }
    } else if 1 <= name.len() <= 64 && (forall|i: int|
        0 <= i < name.len() ==> ('a' <= #[trigger] name[i] <= 'z') || ('0' <= name[i] <= '9') || (
        name[i] == '-' && 0 < i < name.len() - 1 && name[i - 1] != '-')) {
        assert forall|i: int| 0 <= i < name.len() implies is_name_char(#[trigger] name[i]) by {}
        lemma_name_bytes(name);
        if has_double_hyphen(name) {
            let (i, j) = choose|i: int, j: int|
                0 <= i && j == i + 1 && j < name.len() && #[trigger] name[i] == '-'
                    && #[trigger] name[j] == '-';
            assert(name[j - 1] == '-');
        }
        assert(name[0] == name[0]);
        assert(name[name.len() - 1] == name.last());
    }
}

proof fn lemma_name_bytes(name: Seq<char>)
    requires
        forall|i: int| 0 <= i < name.len() ==> is_name_char(#[trigger] name[i]),
    ensures
        byte_len(name) == name.len(),
    decreases name.len(),
{
    if name.len() == 0 {
        assert(name =~= Seq::<char>::empty());
        assert(byte_len(Seq::<char>::empty()) == 0);
    } else {
        let front = name.drop_last();
        assert forall|i: int| 0 <= i < front.len() implies is_name_char(#[trigger] front[i]) by {
            assert(front[i] == name[i]);
        }
        lemma_name_bytes(front);
        assert(is_name_char(name[name.len() - 1]));
        crate::text::lemma_byte_len_push(front, name.last());
        assert(front.push(name.last()) =~= name);
    }
}

/// Whether a step follows from an entry of a directory that is no skill: a directory
/// is searched, and in the root a `.md` file is taken, unless its name starts with a
/// dot or is `node_modules`.
pub open spec fn follows_from(
    dir: Seq<char>,
    child: ChildModel,
    is_root: bool,
    step: StepModel,
) -> bool {
    child.name matches Some(name) && !(name.len() > 0 && name[0] == '.') && name
        != "node_modules"@ && match step {
        StepModel::Read(p) => child.kind is Directory && p == joined(dir, name),
        StepModel::Take(p) => child.kind is File && is_root && name.len() >= 3 && name.skip(
            name.len() - 3,
        ) == seq!['.', 'm', 'd'] && p == joined(dir, name),
    }
}

/// A directory with a file `SKILL.md` is that skill alone. Any other is searched for
/// what its entries lead to: every one of them, in their order, and nothing else.
pub proof fn law_directories_are_searched_entry_by_entry(
    dir: Seq<char>,
    children: Seq<ChildModel>,
    is_root: bool,
)
    ensures
        (exists|i: int|
            0 <= i < children.len() && (#[trigger] children[i]).name == Some("SKILL.md"@)
                && children[i].kind is File) ==> directory_steps(dir, Some(children), is_root)
            == seq![StepModel::Take(joined(dir, "SKILL.md"@))],
        !(exists|i: int|
            0 <= i < children.len() && (#[trigger] children[i]).name == Some("SKILL.md"@)
                && children[i].kind is File) ==> forall|step: StepModel| #[trigger]
            directory_steps(dir, Some(children), is_root).contains(step) <==> exists|i: int|
                0 <= i < children.len() && follows_from(
                    dir,
                    #[trigger] children[i],
                    is_root,
                    step,
                ),
        directory_steps(dir, None, is_root).len() == 0,
{
    if exists|i: int|
        0 <= i < children.len() && (#[trigger] children[i]).name == Some("SKILL.md"@)
            && children[i].kind is File {
        let i = choose|i: int|
            0 <= i < children.len() && (#[trigger] children[i]).name == Some("SKILL.md"@)
                && children[i].kind is File;
        assert(is_skill_file(children[i]));
    } else {
        assert(!holds_skill(children));
        assert forall|step: StepModel| #[trigger]
            directory_steps(dir, Some(children), is_root).contains(step) <==> exists|i: int|
                0 <= i < children.len() && follows_from(
                    dir,
                    #[trigger] children[i],
                    is_root,
                    step,
                ) by {
            lemma_children_steps(dir, children, is_root, children.len(), step);
        }
    }
}

proof fn lemma_children_steps(
    dir: Seq<char>,
    children: Seq<ChildModel>,
    is_root: bool,
    n: nat,
    step: StepModel,
)
    requires
        n <= children.len(),
    ensures
        children_steps(dir, children, is_root, n).contains(step) <==> exists|i: int|
            0 <= i < n && follows_from(dir, #[trigger] children[i], is_root, step),
    decreases n,
{
    if n > 0 {
        let m = (n - 1) as nat;
        lemma_children_steps(dir, children, is_root, m, step);
        let a = children_steps(dir, children, is_root, m);
        let b = child_steps(dir, children[n - 1], is_root);
        let all = a + b;
        reveal_strlit(".md");
        assert(".md"@ =~= seq!['.', 'm', 'd']);
        assert(b.contains(step) <==> follows_from(dir, children[n - 1], is_root, step)) by {
            if b.len() > 0 {
                assert(b[0] == b.last());
                if b.contains(step) {
                    assert(b[0] == step);
                }
            }
        }
        if all.contains(step) {
            let k = choose|k: int| 0 <= k < all.len() && all[k] == step;
            if k < a.len() {
                assert(a[k] == step);
            } else {
                assert(b[k - a.len()] == step);
            }
        }
        if a.contains(step) {
            let k = choose|k: int| 0 <= k < a.len() && a[k] == step;
            assert(all[k] == step);
        }
        if b.contains(step) {
            let k = choose|k: int| 0 <= k < b.len() && b[k] == step;
            assert(all[a.len() + k] == step);
        }
    }
}

/// Of the skills with a name, the one of the first file is loaded; a name that no
/// file has is not.
pub proof fn law_every_name_is_loaded_from_its_first_file(
    files: Seq<SkillFileModel>,
    name: Seq<char>,
)
    ensures
        ordered(load_all(nothing_loaded(), files).by_name),
        match lookup(load_all(nothing_loaded(), files).by_name, name) {
            Some(s) => s.name == name && exists|i: int|
                0 <= i < files.len() && file_skill(#[trigger] files[i]) == Some(s) && forall|j: int|
                    0 <= j < i ==> (file_skill(#[trigger] files[j]) matches Some(o) ==> o.name
                        != name),
            None => forall|j: int|
                0 <= j < files.len() ==> (file_skill(#[trigger] files[j]) matches Some(o) ==> o.name
                    != name),
        },
    decreases files.len(),
{
    if files.len() > 0 {
        let front = files.drop_last();
        let n = files.len() - 1;
        law_every_name_is_loaded_from_its_first_file(front, name);
        assert forall|j: int| 0 <= j < n implies #[trigger] files[j] == front[j] by {}
        assert(files[n] == files.last());
        let before = load_all(nothing_loaded(), front);
        if let Some(s) = file_skill(files.last()) {
            crate::table::law_put_binds_one_key(before.by_name, s.name, s, name);
            if s.name == name && lookup(before.by_name, name) is None {
                assert(file_skill(files[n]) == Some(s));
            }
        }
        if let Some(s) = lookup(before.by_name, name) {
            let i = choose|i: int|
                0 <= i < front.len() && file_skill(#[trigger] front[i]) == Some(s) && forall|j: int|
                    0 <= j < i ==> (file_skill(#[trigger] front[j]) matches Some(o) ==> o.name
                        != name);
            assert(file_skill(files[i]) == Some(s));
        }
    }
}

/// The skill of a file, if it can be read and holds one.
pub open spec fn file_skill(file: SkillFileModel) -> Option<SkillModel> {
    match file.content {
        Ok(content) => loaded_skill(content, file.path).0,
        Err(_) => None,
    }
}

proof fn lemma_children_steps_take(
    dir: Seq<char>,
    a: Seq<ChildModel>,
    b: Seq<ChildModel>,
    is_root: bool,
    n: nat,
)
    requires
        n <= a.len(),
    ensures
        children_steps(dir, a + b, is_root, n) == children_steps(dir, a, is_root, n),
    decreases n,
{
    if n > 0 {
        lemma_children_steps_take(dir, a, b, is_root, (n - 1) as nat);
        assert((a + b)[n - 1] == a[n - 1]);
    }
}

proof fn lemma_children_steps_add(
    dir: Seq<char>,
    a: Seq<ChildModel>,
    b: Seq<ChildModel>,
    is_root: bool,
    n: nat,
)
    requires
        n <= b.len(),
    ensures
        children_steps(dir, a + b, is_root, a.len() + n) == children_steps(
            dir,
            a,
            is_root,
            a.len(),
        ) + children_steps(dir, b, is_root, n),
    decreases n,
{
    let front = children_steps(dir, a, is_root, a.len());
    if n == 0 {
        lemma_children_steps_take(dir, a, b, is_root, a.len());
        assert(front + children_steps(dir, b, is_root, 0) =~= front);
    } else {
        lemma_children_steps_add(dir, a, b, is_root, (n - 1) as nat);
        assert((a + b)[a.len() + n - 1] == b[n - 1]);
        assert(children_steps(dir, a + b, is_root, a.len() + n) =~= front + children_steps(
            dir,
            b,
            is_root,
            n,
        ));
    }
}

/// The entries of a directory are searched in their order: what comes first leads
/// to what is found first.
pub proof fn law_entries_are_searched_in_order(
    dir: Seq<char>,
    a: Seq<ChildModel>,
    b: Seq<ChildModel>,
    is_root: bool,
)
    requires
        forall|i: int| 0 <= i < a.len() ==> (#[trigger] a[i]).name != Some("SKILL.md"@),
        forall|i: int| 0 <= i < b.len() ==> (#[trigger] b[i]).name != Some("SKILL.md"@),
    ensures
        directory_steps(dir, Some(a + b), is_root) == directory_steps(dir, Some(a), is_root)
            + directory_steps(dir, Some(b), is_root),
{
    assert forall|i: int| 0 <= i < (a + b).len() implies !is_skill_file(#[trigger] (a + b)[i]) by {
        if i < a.len() {
            assert((a + b)[i] == a[i]);
        } else {
            assert((a + b)[i] == b[i - a.len()]);
        }
    }
    assert(!holds_skill(a + b) && !holds_skill(a) && !holds_skill(b));
    lemma_children_steps_add(dir, a, b, is_root, b.len());
}

proof fn lemma_load_add(before: LoadModel, a: Seq<SkillFileModel>, b: Seq<SkillFileModel>)
    ensures
        load_all(before, a + b) == load_all(load_all(before, a), b),
    decreases b.len(),
{
    if b.len() == 0 {
        assert(a + b =~= a);
    } else {
        assert((a + b).drop_last() =~= a + b.drop_last());
        assert((a + b).last() == b.last());
        lemma_load_add(before, a, b.drop_last());
    }
}

/// Several directories are loaded as one that holds all of their files, those of
/// the first directory first.
pub proof fn law_directories_are_loaded_one_after_the_other(dirs: Seq<Seq<SkillFileModel>>)
    ensures
        load_dirs(dirs) == load_all(nothing_loaded(), dirs.flatten()),
    decreases dirs.len(),
{
    dirs.lemma_flatten_and_flatten_alt_are_equivalent();
    if dirs.len() > 0 {
        let front = dirs.drop_last();
        front.lemma_flatten_and_flatten_alt_are_equivalent();
        law_directories_are_loaded_one_after_the_other(front);
        lemma_load_add(nothing_loaded(), front.flatten(), dirs.last());
    }
}

proof fn lemma_notes_stay(before: LoadModel, files: Seq<SkillFileModel>, d: DiagnosticModel)
    requires
        before.diagnostics.contains(d),
    ensures
        load_all(before, files).diagnostics.contains(d),
    decreases files.len(),
{
    if files.len() > 0 {
        let m = load_all(before, files.drop_last());
        lemma_notes_stay(before, files.drop_last(), d);
        let k = choose|k: int| 0 <= k < m.diagnostics.len() && m.diagnostics[k] == d;
        assert(load_all(before, files).diagnostics[k] == d);
    }
}

/// Nothing is left out in silence: a file that cannot be read is noted with the
/// reason, one whose name is taken with the file that has it, and what a file is
/// noted for by itself is noted here, too.
pub proof fn law_every_omission_is_noted(
    before: Seq<SkillFileModel>,
    file: SkillFileModel,
    after: Seq<SkillFileModel>,
    d: DiagnosticModel,
)
    ensures
        ({
            let notes = load_all(nothing_loaded(), before + seq![file] + after).diagnostics;
            &&& file.content matches Err(e) ==> notes.contains(
                DiagnosticModel {
                    path: file.path,
                    kind: DiagnosticKind::Warning,
                    message: "failed to read: "@ + e,
                },
            )
            &&& file.content matches Ok(content) ==> (loaded_skill(content, file.path).1.contains(d)
                ==> notes.contains(d))
            &&& file_skill(file) matches Some(s) ==> (lookup(
                load_all(nothing_loaded(), before).by_name,
                s.name,
            ) matches Some(existing) ==> notes.contains(
                DiagnosticModel {
                    path: file.path,
                    kind: DiagnosticKind::Collision,
                    message: "name \""@ + s.name + "\" collision — keeping "@ + existing.file_path,
                },
            ))
        }),
{
    let start = load_all(nothing_loaded(), before);
    let next = load_one(start, file);
    lemma_load_add(nothing_loaded(), before + seq![file], after);
    lemma_load_add(nothing_loaded(), before, seq![file]);
    assert(seq![file].drop_last() =~= Seq::<SkillFileModel>::empty());
    assert(load_all(start, seq![file]) == next) by {
        reveal_with_fuel(load_all, 2);
        assert(seq![file].last() == file);
    }
    match file.content {
        Err(e) => {
            let note = DiagnosticModel {
                path: file.path,
                kind: DiagnosticKind::Warning,
                message: "failed to read: "@ + e,
            };
            assert(next.diagnostics.last() == note);
            lemma_notes_stay(next, after, note);
        },
        Ok(content) => {
            let own = loaded_skill(content, file.path).1;
            if own.contains(d) {
                let k = choose|k: int| 0 <= k < own.len() && own[k] == d;
                assert(next.diagnostics[start.diagnostics.len() + k] == d);
                lemma_notes_stay(next, after, d);
            }
            if let Some(s) = file_skill(file) {
                if let Some(existing) = lookup(start.by_name, s.name) {
                    let note = DiagnosticModel {
                        path: file.path,
                        kind: DiagnosticKind::Collision,
                        message: "name \""@ + s.name + "\" collision — keeping "@
                            + existing.file_path,
                    };
                    assert(next.diagnostics.last() == note);
                    lemma_notes_stay(next, after, note);
                }
            }
        },
    }
}

/// A skill that loads is noted for two things alone: a name other than that of
/// its directory, and a description of more than 1024 bytes.
pub proof fn law_loaded_skills_are_noted_for_two_things(content: Seq<char>, path: Seq<char>)
    requires
        loaded_skill(content, path).0 is Some,
    ensures
        ({
            let (skill, notes) = loaded_skill(content, path);
            let s = skill->0;
            let other_name = parent_name(path) matches Some(p) && p != s.name;
            let long = byte_len(s.description) > 1024;
            &&& notes.len() == (if other_name {
                1int
            } else {
                0
            }) + (if long {
                1int
            } else {
                0
            })
            &&& other_name ==> notes[0] == (DiagnosticModel {
                path,
                kind: DiagnosticKind::Warning,
                message: "name \""@ + s.name + "\" does not match parent directory \""@
                    + parent_name(path)->0 + "\""@,
            })
            &&& long ==> notes.last() == (DiagnosticModel {
                path,
                kind: DiagnosticKind::Warning,
                message: "description exceeds 1024 characters ("@ + decimal(
                    byte_len(s.description),
                ) + ")"@,
            })
        }),
{
}

} // verus!
