//! `AGENTS.md` files: where they are looked for when a session starts, and which
//! of them count.

use crate::path::{components, join, joined, law_parents_get_shorter, parent, parent_of, same_path};
use crate::table::deep_views;
use crate::text::{str_len, trim, trim_str, views};
use vstd::prelude::*;

verus! {

/// A directory and those above it, the topmost first.
pub open spec fn ancestors(dir: Seq<char>) -> Seq<Seq<char>>
    decreases dir.len(),
    via ancestors_decreases
{
    match parent(dir) {
        Some(up) => ancestors(up).push(dir),
        None => seq![dir],
    }
}

#[via_fn]
proof fn ancestors_decreases(dir: Seq<char>) {
    law_parents_get_shorter(dir);
}

/// A directory and those above it, the topmost first.
pub fn ancestor_dirs(cwd: &str) -> (out: Vec<String>)
    ensures
        views(out@) == ancestors(cwd@),
    decreases cwd@.len(),
{
    proof {
        law_parents_get_shorter(cwd@);
    }
    let mut out = match parent_of(cwd) {
        Some(up) => ancestor_dirs(up.as_str()),
        None => Vec::new(),
    };
    let ghost above = out@;
    out.push(cwd.to_owned());
    proof {
        assert(views(out@) =~= views(above).push(cwd@));
        if parent(cwd@) is None {
            assert(views(out@) =~= seq![cwd@]);
        }
    }
    out
}

/// The directories where a session looks: `.agents` in the home directory, then
/// the working directory and those above it, the topmost first.
pub open spec fn search_roots(home: Option<Seq<char>>, cwd: Option<Seq<char>>) -> Seq<Seq<char>> {
    let first = match home {
        Some(h) => seq![joined(h, ".agents"@)],
        None => Seq::empty(),
    };
    match cwd {
        Some(c) => first + ancestors(c),
        None => first,
    }
}

/// The directories where a session looks.
pub fn session_roots(home: Option<&str>, cwd: Option<&str>) -> (out: Vec<String>)
    ensures
        views(out@) == search_roots(crate::cbor::str_opt(home), crate::cbor::str_opt(cwd)),
{
    let mut out: Vec<String> = Vec::new();
    if let Some(h) = home {
        out.push(join(h, ".agents"));
    }
    let ghost first = views(out@);
    proof {
        match home {
            Some(h) => {
                assert(first =~= seq![joined(h@, ".agents"@)]);
            },
            None => {
                assert(first =~= Seq::<Seq<char>>::empty());
            },
        }
    }
    if let Some(c) = cwd {
        let mut more = ancestor_dirs(c);
        let ghost front = out@;
        let ghost tail = more@;
        out.append(&mut more);
        proof {
            assert(views(out@) =~= views(front) + views(tail));
        }
    }
    out
}

/// The file to look for in a directory.
pub fn candidate(dir: &str) -> (path: String)
    ensures
        path@ == joined(dir@, "AGENTS.md"@),
{
    join(dir, "AGENTS.md")
}

/// A file that was found.
#[derive(Clone, Debug)]
pub struct DiscoveredAgentsFile {
    pub file_path: String,
    pub content: String,
}

/// What a [`DiscoveredAgentsFile`] says.
#[verifier::ext_equal]
pub struct AgentsFileModel {
    pub file_path: Seq<char>,
    pub content: Seq<char>,
}

impl View for DiscoveredAgentsFile {
    type V = AgentsFileModel;

    open spec fn view(&self) -> AgentsFileModel {
        AgentsFileModel { file_path: self.file_path@, content: self.content@ }
    }
}

/// Whether one of the files lies at the given path.
pub open spec fn has_path(files: Seq<AgentsFileModel>, path: Seq<char>) -> bool {
    exists|i: int|
        0 <= i < files.len() && components((#[trigger] files[i]).file_path) == components(path)
}

/// The files that count: those that say something, each path once.
pub open spec fn kept_files(found: Seq<AgentsFileModel>) -> Seq<AgentsFileModel>
    decreases found.len(),
{
    if found.len() == 0 {
        Seq::empty()
    } else {
        let before = kept_files(found.drop_last());
        let f = found.last();
        if trim(f.content).len() == 0 || has_path(before, f.file_path) {
            before
        } else {
            before.push(f)
        }
    }
}

/// Whether one of the files lies at the given path.
fn seen(files: &[DiscoveredAgentsFile], path: &str) -> (r: bool)
    ensures
        r == has_path(deep_views(files@), path@),
{
    let mut i: usize = 0;
    while i < files.len()
        invariant
            i <= files@.len(),
            forall|j: int|
                0 <= j < i ==> components((#[trigger] deep_views(files@)[j]).file_path)
                    != components(path@),
        decreases files@.len() - i,
    {
        if same_path(files[i].file_path.as_str(), path) {
            proof {
                assert(deep_views(files@)[i as int] == files@[i as int]@);
            }
            return true;
        }
        i = i + 1;
    }
    false
}

/// The files that count of those that were read, in the order of the
/// directories.
pub fn discover_agents_files(found: Vec<DiscoveredAgentsFile>) -> (out: Vec<DiscoveredAgentsFile>)
    ensures
        deep_views(out@) == kept_files(deep_views(found@)),
{
    let ghost all = deep_views(found@);
    let ghost given = found@;
    let mut left = found;
    let count = left.len();
    let mut out: Vec<DiscoveredAgentsFile> = Vec::new();
    let mut i: usize = 0;
    proof {
        assert(all.take(0) =~= Seq::<AgentsFileModel>::empty());
        assert(deep_views(out@) =~= Seq::<AgentsFileModel>::empty());
        assert(given.skip(0) =~= given);
    }
    while i < count
        invariant
            i <= count,
            count == given.len(),
            all == deep_views(given),
            left@ == given.skip(i as int),
            deep_views(out@) == kept_files(all.take(i as int)),
        decreases count - i,
    {
        let file = left.remove(0);
        let ghost before = out@;
        proof {
            assert(given.skip(i as int)[0] == given[i as int]);
            assert(given.skip(i as int).remove(0) =~= given.skip(i + 1));
            assert(all.take(i + 1).drop_last() =~= all.take(i as int));
            assert(all.take(i + 1).last() == file@);
        }
        let said = trim_str(file.content.as_str());
        proof {
            crate::text::lemma_empty_text(said@);
        }
        if str_len(said.as_str()) > 0 && !seen(out.as_slice(), file.file_path.as_str()) {
            let ghost kept = file@;
            out.push(file);
            proof {
                assert(deep_views(out@) =~= deep_views(before).push(kept));
            }
        }
        i = i + 1;
    }
    proof {
        assert(all.take(i as int) =~= all);
    }
    out
}

// ---------------------------------------------------------------------------
// Laws
// ---------------------------------------------------------------------------

/// No path counts twice, and every file that counts says something.
pub proof fn law_paths_count_once(found: Seq<AgentsFileModel>)
    ensures
        forall|i: int, j: int|
            0 <= i < j < kept_files(found).len() ==> components(
                (#[trigger] kept_files(found)[i]).file_path,
            ) != components((#[trigger] kept_files(found)[j]).file_path),
        forall|i: int|
            0 <= i < kept_files(found).len() ==> trim(
                (#[trigger] kept_files(found)[i]).content,
            ).len() > 0,
    decreases found.len(),
{
    if found.len() > 0 {
        let before = kept_files(found.drop_last());
        law_paths_count_once(found.drop_last());
        let out = kept_files(found);
        if out != before {
            assert forall|i: int, j: int| 0 <= i < j < out.len() implies components(
                (#[trigger] out[i]).file_path,
            ) != components((#[trigger] out[j]).file_path) by {
                assert(out[i] == before[i]);
                if j < before.len() {
                    assert(out[j] == before[j]);
                } else {
                    assert(!has_path(before, out[j].file_path));
                }
            }
            assert forall|i: int| 0 <= i < out.len() implies trim(
                (#[trigger] out[i]).content,
            ).len() > 0 by {
                if i < before.len() {
                    assert(out[i] == before[i]);
                }
            }
        }
    }
}

/// Each directory on the list is the parent of the next one, and the last one is
/// the directory itself.
pub proof fn law_ancestors_are_parents(dir: Seq<char>)
    ensures
        ancestors(dir).len() > 0,
        ancestors(dir).last() == dir,
        parent(ancestors(dir)[0]) is None,
        forall|i: int|
            0 < i < ancestors(dir).len() ==> parent(#[trigger] ancestors(dir)[i]) == Some(
                ancestors(dir)[i - 1],
            ),
    decreases dir.len(),
{
    law_parents_get_shorter(dir);
    if let Some(up) = parent(dir) {
        law_ancestors_are_parents(up);
        let above = ancestors(up);
        assert forall|i: int| 0 < i < ancestors(dir).len() implies parent(
            #[trigger] ancestors(dir)[i],
        ) == Some(ancestors(dir)[i - 1]) by {
            if i < above.len() {
                assert(ancestors(dir)[i] == above[i]);
            }
        }
    }
}

/// A file that says something counts as it is, unless one before it lies at the
/// same path.
pub proof fn law_every_telling_file_counts(found: Seq<AgentsFileModel>, i: int)
    requires
        0 <= i < found.len(),
        trim(found[i].content).len() > 0,
        forall|j: int|
            0 <= j < i ==> components((#[trigger] found[j]).file_path) != components(
                found[i].file_path,
            ),
    ensures
        kept_files(found).contains(found[i]),
    decreases found.len(),
{
    let front = found.drop_last();
    let before = kept_files(front);
    let out = kept_files(found);
    if i < front.len() {
        assert(front[i] == found[i]);
        law_every_telling_file_counts(front, i);
        let k = choose|k: int| 0 <= k < before.len() && before[k] == found[i];
        assert(out[k] == found[i]);
    } else {
        if has_path(before, found[i].file_path) {
            let k = choose|k: int|
                0 <= k < before.len() && components((#[trigger] before[k]).file_path) == components(
                    found[i].file_path,
                );
            law_files_that_count_were_found(front, k, k);
            let j = choose|j: int| 0 <= j < front.len() && front[j] == before[k];
            assert(components(found[j].file_path) == components(found[i].file_path));
        }
        assert(out.last() == found[i]);
    }
}

/// The files that count were all found, and in that order.
pub proof fn law_files_that_count_were_found(found: Seq<AgentsFileModel>, a: int, b: int)
    requires
        0 <= a <= b < kept_files(found).len(),
    ensures
        found.contains(kept_files(found)[a]),
        exists|i: int, j: int|
            0 <= i <= j < found.len() && #[trigger] found[i] == kept_files(found)[a]
                && #[trigger] found[j] == kept_files(found)[b],
    decreases found.len(),
{
    let front = found.drop_last();
    let before = kept_files(front);
    let out = kept_files(found);
    if b < before.len() {
        law_files_that_count_were_found(front, a, b);
        let (i, j) = choose|i: int, j: int|
            0 <= i <= j < front.len() && #[trigger] front[i] == before[a] && #[trigger] front[j]
                == before[b];
        assert(found[i] == out[a] && found[j] == out[b]);
    } else {
        let n = found.len() - 1;
        assert(out[b] == found[n]);
        if a < before.len() {
            law_files_that_count_were_found(front, a, a);
            let i = choose|i: int| 0 <= i < front.len() && front[i] == before[a];
            assert(found[i] == out[a]);
        } else {
            assert(found[n] == out[a]);
        }
    }
}

/// A session looks in the home directory first and in the working directory
/// last, and in every directory above that one.
pub proof fn law_roots_lead_from_home_to_here(home: Seq<char>, cwd: Seq<char>)
    ensures
        ({
            let roots = search_roots(Some(home), Some(cwd));
            &&& roots.len() >= 2
            &&& roots[0] == joined(home, ".agents"@)
            &&& roots.last() == cwd
            &&& parent(roots[1]) is None
            &&& forall|i: int|
                2 <= i < roots.len() ==> parent(#[trigger] roots[i]) == Some(roots[i - 1])
        }),
        search_roots(None, Some(cwd)) == search_roots(Some(home), Some(cwd)).skip(1),
        search_roots(Some(home), None) == search_roots(Some(home), Some(cwd)).take(1),
        search_roots(None, None).len() == 0,
{
    law_ancestors_are_parents(cwd);
    let up = ancestors(cwd);
    let roots = search_roots(Some(home), Some(cwd));
    assert forall|i: int| 2 <= i < roots.len() implies parent(#[trigger] roots[i]) == Some(
        roots[i - 1],
    ) by {
        assert(roots[i] == up[i - 1]);
        assert(roots[i - 1] == up[i - 2]);
    }
    assert(search_roots(None, Some(cwd)) =~= roots.skip(1));
    assert(search_roots(Some(home), None) =~= roots.take(1));
}

} // verus!
