//! Unix paths as text: joining, parents and file names.

use crate::text::{
    char_views, extend_chars, find_char, find_char_from, from_chars, slice_text, str_eq, to_chars,
};
use vstd::prelude::*;

verus! {

// ---------------------------------------------------------------------------
// Joining
// ---------------------------------------------------------------------------

/// `name` below `base`. An absolute name stands for itself.
pub open spec fn joined(base: Seq<char>, name: Seq<char>) -> Seq<char> {
    if name.len() > 0 && name[0] == '/' {
        name
    } else if base.len() == 0 || base.last() == '/' {
        base + name
    } else {
        base.push('/') + name
    }
}

/// `name` below `base`.
pub fn join(base: &str, name: &str) -> (r: String)
    ensures
        r@ == joined(base@, name@),
{
    let b = to_chars(base);
    let n = to_chars(name);
    if n.len() > 0 && n[0] == '/' {
        return name.to_owned();
    }
    let mut out = base.to_owned();
    if b.len() > 0 && b[b.len() - 1] != '/' {
        out.push('/');
    }
    out.append(name);
    out
}

// ---------------------------------------------------------------------------
// Components
// ---------------------------------------------------------------------------

/// Length of what comes before the named components: a root, or a leading dot
/// component.
pub open spec fn lead(p: Seq<char>) -> int {
    if p.len() > 0 && p[0] == '/' {
        1
    } else if p.len() > 0 && p[0] == '.' && (p.len() == 1 || p[1] == '/') {
        1
    } else {
        0
    }
}

/// The largest position up to `k` that follows a separator at or after `low`,
/// or `low`.
pub open spec fn start_before(p: Seq<char>, k: int, low: int) -> int
    decreases k - low,
{
    if k <= low {
        low
    } else if p[k - 1] == '/' {
        k
    } else {
        start_before(p, k - 1, low)
    }
}

/// Where the last component starts.
pub open spec fn last_start(p: Seq<char>) -> int {
    start_before(p, p.len() as int, lead(p))
}

/// The last component, which may be empty or a dot.
pub open spec fn last_component(p: Seq<char>) -> Seq<char> {
    p.skip(last_start(p))
}

/// The path without its last component and the separator before it.
pub open spec fn without_last(p: Seq<char>) -> Seq<char> {
    if last_start(p) > lead(p) {
        p.take(last_start(p) - 1)
    } else {
        p.take(lead(p))
    }
}

/// The path without empty and dot components at its end.
pub open spec fn shrunk(p: Seq<char>) -> Seq<char>
    decreases p.len(),
    via shrunk_decreases
{
    if p.len() > lead(p) && (last_component(p).len() == 0 || last_component(p) == seq!['.']) {
        shrunk(without_last(p))
    } else {
        p
    }
}

#[via_fn]
proof fn shrunk_decreases(p: Seq<char>) {
    lemma_start_before(p, p.len() as int, lead(p));
}

proof fn lemma_start_before(p: Seq<char>, k: int, low: int)
    requires
        0 <= low,
        k <= p.len(),
    ensures
        low <= start_before(p, k, low),
        k >= low ==> start_before(p, k, low) <= k,
    decreases k - low,
{
    if k > low && p[k - 1] != '/' {
        lemma_start_before(p, k - 1, low);
    }
}

/// The directory that holds the last component. A root and the empty path have
/// none.
pub open spec fn parent(p: Seq<char>) -> Option<Seq<char>> {
    let q = shrunk(p);
    if q.len() > lead(q) {
        Some(shrunk(without_last(q)))
    } else if q.len() > 0 && q[0] == '.' {
        Some(Seq::empty())
    } else {
        None
    }
}

/// The name of the last component; a root, a dot and two dots are no names.
pub open spec fn file_name(p: Seq<char>) -> Option<Seq<char>> {
    let q = shrunk(p);
    if q.len() > lead(q) && last_component(q) != seq!['.', '.'] {
        Some(last_component(q))
    } else {
        None
    }
}

fn lead_len(p: &[char]) -> (n: usize)
    ensures
        n == lead(p@),
        n <= p@.len(),
{
    if p.len() > 0 && p[0] == '/' {
        1
    } else if p.len() > 0 && p[0] == '.' && (p.len() == 1 || p[1] == '/') {
        1
    } else {
        0
    }
}

fn find_last_start(p: &[char]) -> (k: usize)
    ensures
        k == last_start(p@),
        lead(p@) <= k <= p@.len(),
{
    let low = lead_len(p);
    let mut k: usize = p.len();
    while k > low && p[k - 1] != '/'
        invariant
            low <= k <= p@.len(),
            low == lead(p@),
            start_before(p@, k as int, low as int) == last_start(p@),
        decreases k,
    {
        k = k - 1;
    }
    k
}

/// Length of the path without its last component.
fn without_last_len(p: &[char]) -> (n: usize)
    requires
        p@.len() > lead(p@),
    ensures
        n < p@.len(),
        without_last(p@) == p@.take(n as int),
{
    let low = lead_len(p);
    let k = find_last_start(p);
    if k > low {
        k - 1
    } else {
        low
    }
}

/// The characters up to `n`.
fn front(p: &[char], n: usize) -> (q: Vec<char>)
    requires
        n <= p@.len(),
    ensures
        q@ == p@.take(n as int),
{
    let mut q: Vec<char> = Vec::new();
    extend_chars(&mut q, vstd::slice::slice_subrange(p, 0, n));
    proof {
        assert(q@ =~= p@.take(n as int));
    }
    q
}

fn shrink(p: &[char]) -> (q: Vec<char>)
    ensures
        q@ == shrunk(p@),
{
    let mut q = front(p, p.len());
    proof {
        assert(q@ =~= p@);
    }
    loop
        invariant
            shrunk(q@) == shrunk(p@),
        ensures
            q@ == shrunk(p@),
        decreases q@.len(),
    {
        let low = lead_len(&q);
        if q.len() <= low {
            break;
        }
        let k = find_last_start(&q);
        let dropped = k == q.len() || (k + 1 == q.len() && q[k] == '.');
        proof {
            let c = last_component(q@);
            assert(c.len() == q@.len() - k);
            if k + 1 == q@.len() {
                assert(c[0] == q@[k as int]);
                assert(c =~= seq![q@[k as int]]);
            }
            if c == seq!['.'] {
                assert(c.len() == 1);
                assert(c[0] == '.');
            }
        }
        if !dropped {
            break;
        }
        let n = without_last_len(&q);
        q = front(&q, n);
    }
    q
}

/// The directory that holds the last component of `path`.
pub fn parent_of(path: &str) -> (r: Option<String>)
    ensures
        match r {
            Some(d) => parent(path@) == Some(d@),
            None => parent(path@) is None,
        },
{
    let chars = to_chars(path);
    let q = shrink(&chars);
    let low = lead_len(&q);
    if q.len() > low {
        let n = without_last_len(&q);
        let rest = front(&q, n);
        let d = shrink(&rest);
        Some(from_chars(&d))
    } else if q.len() > 0 && q[0] == '.' {
        let empty = String::new();
        proof {
            assert(empty@ =~= Seq::<char>::empty());
        }
        Some(empty)
    } else {
        None
    }
}

/// The name of the last component of `path`.
pub fn file_name_of(path: &str) -> (r: Option<String>)
    ensures
        match r {
            Some(n) => file_name(path@) == Some(n@),
            None => file_name(path@) is None,
        },
{
    let chars = to_chars(path);
    let q = shrink(&chars);
    let low = lead_len(&q);
    if q.len() <= low {
        return None;
    }
    let k = find_last_start(&q);
    proof {
        let c = last_component(q@);
        assert(c.len() == q@.len() - k);
        if k + 2 == q@.len() {
            assert(c =~= seq![q@[k as int], q@[k + 1]]);
            assert(c[0] == q@[k as int]);
            assert(c[1] == q@[k + 1]);
        }
        if c == seq!['.', '.'] {
            assert(c.len() == 2);
            assert(c[0] == '.');
            assert(c[1] == '.');
        }
    }
    if q.len() - k == 2 && q[k] == '.' && q[k + 1] == '.' {
        return None;
    }
    let name = slice_text(&q, k, q.len());
    proof {
        assert(name@ =~= last_component(q@));
    }
    Some(name)
}

/// Position of the last dot before `n`, or -1.
pub open spec fn last_dot(name: Seq<char>, n: int) -> int
    decreases n,
{
    if n <= 0 {
        -1
    } else if name[n - 1] == '.' {
        n - 1
    } else {
        last_dot(name, n - 1)
    }
}

/// What stands behind the last dot of a file name. A dot in front of the name
/// is part of it.
pub open spec fn extension(name: Seq<char>) -> Option<Seq<char>> {
    let k = last_dot(name, name.len() as int);
    if k > 0 {
        Some(name.skip(k + 1))
    } else {
        None
    }
}

/// A file name without its extension.
pub open spec fn stem(name: Seq<char>) -> Seq<char> {
    let k = last_dot(name, name.len() as int);
    if k > 0 {
        name.take(k)
    } else {
        name
    }
}

/// A file name without its extension, and the extension.
pub fn split_extension(name: &str) -> (r: (String, Option<String>))
    ensures
        r.0@ == stem(name@),
        match r.1 {
            Some(e) => extension(name@) == Some(e@),
            None => extension(name@) is None,
        },
{
    let chars = to_chars(name);
    let mut n: usize = chars.len();
    while n > 0 && chars[n - 1] != '.'
        invariant
            n <= chars@.len(),
            last_dot(chars@, chars@.len() as int) == last_dot(chars@, n as int),
        decreases n,
    {
        n = n - 1;
    }
    if n > 1 {
        let head = slice_text(&chars, 0, n - 1);
        let tail = slice_text(&chars, n, chars.len());
        proof {
            assert(head@ =~= name@.take(n - 1));
            assert(tail@ =~= name@.skip(n as int));
        }
        (head, Some(tail))
    } else {
        (name.to_owned(), None)
    }
}

/// What stands between the separators.
pub open spec fn segments(p: Seq<char>) -> Seq<Seq<char>>
    decreases p.len(),
{
    let k = find_char(p, '/');
    if 0 <= k < p.len() {
        seq![p.take(k)] + segments(p.skip(k + 1))
    } else {
        seq![p]
    }
}

/// The segments that name something: not empty, and not a dot.
pub open spec fn named(all: Seq<Seq<char>>) -> Seq<Seq<char>>
    decreases all.len(),
{
    if all.len() == 0 {
        all
    } else if all.last().len() == 0 || all.last() == seq!['.'] {
        named(all.drop_last())
    } else {
        named(all.drop_last()).push(all.last())
    }
}

/// What a path is made of: whether it starts at the root, whether it starts with
/// a dot component, and the names on it.
pub open spec fn components(p: Seq<char>) -> (bool, bool, Seq<Seq<char>>) {
    (
        p.len() > 0 && p[0] == '/',
        p.len() > 0 && p[0] == '.' && (p.len() == 1 || p[1] == '/'),
        named(segments(p)),
    )
}

/// What stands between the separators.
fn split_segments(p: &[char]) -> (out: Vec<Vec<char>>)
    ensures
        char_views(out@) == segments(p@),
{
    let mut out: Vec<Vec<char>> = Vec::new();
    let mut pos: usize = 0;
    proof {
        assert(p@.skip(0) =~= p@);
        assert(char_views(out@) + segments(p@) =~= segments(p@));
    }
    loop
        invariant_except_break
            pos <= p@.len(),
            char_views(out@) + segments(p@.skip(pos as int)) == segments(p@),
        ensures
            char_views(out@) == segments(p@),
        decreases p@.len() - pos,
    {
        let ghost rest = p@.skip(pos as int);
        let ghost done = out@;
        let k = find_char_from(p, '/', pos);
        let mut segment: Vec<char> = Vec::new();
        extend_chars(&mut segment, vstd::slice::slice_subrange(p, pos, k));
        proof {
            assert(segment@ =~= rest.take(k - pos));
        }
        out.push(segment);
        proof {
            assert(char_views(out@) =~= char_views(done) + seq![segment@]);
        }
        if k >= p.len() {
            proof {
                assert(segment@ =~= rest);
                assert(char_views(out@) =~= segments(p@));
            }
            break;
        }
        proof {
            assert(rest.skip(k - pos + 1) =~= p@.skip(k + 1));
            assert(char_views(out@) + segments(p@.skip(k + 1)) =~= char_views(done) + segments(
                rest,
            ));
        }
        pos = k + 1;
    }
    out
}

/// The segments that name something.
fn named_segments(p: &[char]) -> (out: Vec<Vec<char>>)
    ensures
        char_views(out@) == named(segments(p@)),
{
    let all = split_segments(p);
    let ghost texts = char_views(all@);
    let mut out: Vec<Vec<char>> = Vec::new();
    let mut i: usize = 0;
    proof {
        assert(texts.take(0) =~= Seq::<Seq<char>>::empty());
        assert(char_views(out@) =~= Seq::<Seq<char>>::empty());
    }
    while i < all.len()
        invariant
            i <= all@.len(),
            texts == char_views(all@),
            char_views(out@) == named(texts.take(i as int)),
        decreases all@.len() - i,
    {
        let segment = &all[i];
        let ghost done = out@;
        proof {
            assert(texts.take(i + 1).drop_last() =~= texts.take(i as int));
            assert(texts.take(i + 1).last() == segment@);
            if segment@.len() == 1 && segment@[0] == '.' {
                assert(segment@ =~= seq!['.']);
            }
            assert(seq!['.'].len() == 1 && seq!['.'][0] == '.');
        }
        if !(segment.len() == 0 || (segment.len() == 1 && segment[0] == '.')) {
            let mut copy: Vec<char> = Vec::new();
            extend_chars(&mut copy, segment.as_slice());
            proof {
                assert(copy@ =~= segment@);
            }
            out.push(copy);
            proof {
                assert(char_views(out@) =~= char_views(done).push(segment@));
            }
        }
        i = i + 1;
    }
    proof {
        assert(texts.take(i as int) =~= texts);
    }
    out
}

/// Whether two paths are made of the same components.
pub fn same_path(a: &str, b: &str) -> (r: bool)
    ensures
        r == (components(a@) == components(b@)),
{
    let x = to_chars(a);
    let y = to_chars(b);
    let x_root = x.len() > 0 && x[0] == '/';
    let y_root = y.len() > 0 && y[0] == '/';
    let x_dot = x.len() > 0 && x[0] == '.' && (x.len() == 1 || x[1] == '/');
    let y_dot = y.len() > 0 && y[0] == '.' && (y.len() == 1 || y[1] == '/');
    if x_root != y_root || x_dot != y_dot {
        return false;
    }
    let p = named_segments(&x);
    let q = named_segments(&y);
    let ghost m = char_views(p@);
    let ghost n = char_views(q@);
    if p.len() != q.len() {
        proof {
            assert(m.len() != n.len());
        }
        return false;
    }
    let mut i: usize = 0;
    while i < p.len()
        invariant
            i <= p@.len(),
            p@.len() == q@.len(),
            m == char_views(p@),
            n == char_views(q@),
            m == named(segments(a@)),
            n == named(segments(b@)),
            forall|j: int| 0 <= j < i ==> m[j] == n[j],
        decreases p@.len() - i,
    {
        let s = from_chars(&p[i]);
        let t = from_chars(&q[i]);
        proof {
            assert(m[i as int] == s@);
            assert(n[i as int] == t@);
        }
        if !str_eq(s.as_str(), t.as_str()) {
            return false;
        }
        i = i + 1;
    }
    proof {
        assert(m =~= n);
    }
    true
}

// ---------------------------------------------------------------------------
// Laws
// ---------------------------------------------------------------------------

proof fn lemma_shrunk_len(p: Seq<char>)
    ensures
        shrunk(p).len() <= p.len(),
    decreases p.len(),
{
    if p.len() > lead(p) && (last_component(p).len() == 0 || last_component(p) == seq!['.']) {
        lemma_start_before(p, p.len() as int, lead(p));
        lemma_shrunk_len(without_last(p));
    }
}

/// A parent is shorter than its path, so going up ends.
pub proof fn law_parents_get_shorter(p: Seq<char>)
    ensures
        parent(p) matches Some(d) ==> d.len() < p.len(),
{
    lemma_shrunk_len(p);
    let q = shrunk(p);
    if q.len() > lead(q) {
        lemma_start_before(q, q.len() as int, lead(q));
        lemma_shrunk_len(without_last(q));
    }
}

/// What is joined to a directory by a plain name has that name, and below an
/// ordinary directory path it is found there again.
pub proof fn law_join_gives_name(base: Seq<char>, name: Seq<char>)
    requires
        name.len() > 0,
        !name.contains('/'),
        name != seq!['.'],
        name != seq!['.', '.'],
        base.len() > 0,
    ensures
        file_name(joined(base, name)) == Some(name),
        parent(joined(base, name)) == Some(shrunk(base)),
{
    assert(name[0] != '/') by {
        assert(name.contains(name[0]));
    }
    let p = joined(base, name);
    let cut = p.len() - name.len();
    assert(p =~= p.take(cut) + name);
    assert(p[cut - 1] == '/');
    assert forall|j: int| cut <= j < p.len() implies p[j] != '/' by {
        assert(p[j] == name[j - cut]);
        assert(name.contains(name[j - cut]));
    }
    lemma_lead_joined(base, name);
    lemma_start_found(p, p.len() as int, lead(p), cut);
    assert(last_component(p) =~= name);
    assert(shrunk(p) == p);
    if base.last() == '/' {
        assert(p.take(cut) =~= base);
        if cut > lead(p) {
            assert(without_last(p) =~= base.take(cut - 1));
            lemma_shrunk_slash(base);
        } else {
            assert(without_last(p) =~= base);
        }
    } else {
        assert(without_last(p) =~= base);
    }
}

proof fn lemma_start_found(p: Seq<char>, k: int, low: int, cut: int)
    requires
        0 <= low <= cut <= k <= p.len(),
        cut == low || p[cut - 1] == '/',
        forall|j: int| cut <= j < k ==> p[j] != '/',
    ensures
        start_before(p, k, low) == cut,
    decreases k - low,
{
    if k > cut {
        lemma_start_found(p, k - 1, low, cut);
    }
}

proof fn lemma_lead_joined(base: Seq<char>, name: Seq<char>)
    requires
        name.len() > 0,
        name[0] != '/',
        base.len() > 0,
    ensures
        lead(joined(base, name)) == lead(base),
        lead(base) <= joined(base, name).len() - name.len(),
{
    let p = joined(base, name);
    assert(p[0] == base[0]);
    if base.len() > 1 {
        assert(p[1] == base[1]);
    }
}

proof fn lemma_shrunk_slash(base: Seq<char>)
    requires
        base.len() > lead(base),
        base.last() == '/',
    ensures
        shrunk(base) == shrunk(base.take(base.len() - 1)),
{
    assert(last_start(base) == base.len());
    assert(last_component(base) =~= Seq::<char>::empty());
}

proof fn lemma_segments_join(a: Seq<char>, b: Seq<char>)
    ensures
        segments(a.push('/') + b) == segments(a) + segments(b),
    decreases a.len(),
{
    let p = a.push('/') + b;
    crate::text::lemma_find_char_props(a, '/');
    let k = find_char(a, '/');
    assert forall|j: int| 0 <= j < k implies p[j] != '/' by {
        assert(p[j] == a[j]);
    }
    crate::text::lemma_find_char(p, '/', k);
    assert(p.take(k) =~= a.take(k));
    if k < a.len() {
        let rest = a.skip(k + 1);
        lemma_segments_join(rest, b);
        assert(p.skip(k + 1) =~= rest.push('/') + b);
        assert(segments(p) =~= segments(a) + segments(b));
    } else {
        assert(a.take(k) =~= a);
        assert(p.skip(k + 1) =~= b);
    }
}

proof fn lemma_named_add(a: Seq<Seq<char>>, b: Seq<Seq<char>>)
    ensures
        named(a + b) == named(a) + named(b),
    decreases b.len(),
{
    if b.len() == 0 {
        assert(a + b =~= a);
        assert(named(a) + named(b) =~= named(a));
    } else {
        assert((a + b).drop_last() =~= a + b.drop_last());
        assert((a + b).last() == b.last());
        lemma_named_add(a, b.drop_last());
        assert(named(a + b) =~= named(a) + named(b));
    }
}

/// What is joined to a base has the names of the base and then its own, and
/// starts where the base does. An absolute path stands for itself, whatever the
/// base.
pub proof fn law_joined_paths_have_the_names_of_both(base: Seq<char>, name: Seq<char>)
    ensures
        name.len() > 0 && name[0] == '/' ==> joined(base, name) == name,
        !(name.len() > 0 && name[0] == '/') ==> components(joined(base, name)).2
            == components(base).2 + components(name).2,
        !(name.len() > 0 && name[0] == '/') && base.len() > 0 ==> components(
            joined(base, name),
        ).0 == components(base).0,
{
    let empty = Seq::<char>::empty();
    assert(segments(empty) == seq![empty]) by {
        crate::text::lemma_find_char_props(empty, '/');
    }
    assert(seq![empty].drop_last() =~= Seq::<Seq<char>>::empty());
    assert(named(seq![empty]) =~= Seq::<Seq<char>>::empty()) by {
        reveal_with_fuel(named, 2);
    }
    if !(name.len() > 0 && name[0] == '/') {
        let p = joined(base, name);
        if base.len() == 0 {
            assert(base =~= empty);
            assert(p =~= name);
            assert(components(p).2 =~= components(base).2 + components(name).2);
        } else if base.last() == '/' {
            let a = base.drop_last();
            assert(a.push('/') =~= base);
            assert(a.push('/') + empty =~= base);
            lemma_segments_join(a, empty);
            lemma_segments_join(a, name);
            lemma_named_add(segments(a), seq![empty]);
            lemma_named_add(segments(a), segments(name));
            assert(components(p).2 =~= components(base).2 + components(name).2);
        } else {
            lemma_segments_join(base, name);
            lemma_named_add(segments(base), segments(name));
        }
    }
}

/// A doubled separator, or one at the end, is no component of its own; nor is a
/// dot on the way.
pub proof fn law_superfluous_separators_change_nothing(a: Seq<char>, b: Seq<char>)
    requires
        a.len() > 0,
    ensures
        components(a.push('/').push('/') + b) == components(a.push('/') + b),
        components(a.push('/').push('.').push('/') + b) == components(a.push('/') + b),
{
    let empty = Seq::<char>::empty();
    let dot = seq!['.'];
    let p = a.push('/') + b;
    let q = a.push('/').push('/') + b;
    let r = a.push('/').push('.').push('/') + b;
    crate::text::lemma_find_char_props(empty, '/');
    crate::text::lemma_find_char(dot, '/', 1);
    assert(segments(empty) == seq![empty]);
    assert(segments(dot) == seq![dot]);
    assert(seq![empty].drop_last() =~= Seq::<Seq<char>>::empty());
    assert(seq![dot].drop_last() =~= Seq::<Seq<char>>::empty());
    assert(seq![dot].last() == dot);
    reveal_with_fuel(named, 2);
    assert(named(seq![empty]) =~= Seq::<Seq<char>>::empty());
    assert(named(seq![dot]) =~= Seq::<Seq<char>>::empty());
    lemma_segments_join(a, b);
    lemma_named_add(segments(a), segments(b));
    assert(a.push('/') + empty =~= a.push('/'));
    lemma_segments_join(a, empty);
    lemma_segments_join(a.push('/'), b);
    lemma_named_add(segments(a), seq![empty]);
    lemma_named_add(segments(a) + seq![empty], segments(b));
    assert(named(segments(a)) + Seq::<Seq<char>>::empty() =~= named(segments(a)));
    assert(a.push('/') + dot =~= a.push('/').push('.'));
    lemma_segments_join(a, dot);
    lemma_segments_join(a.push('/').push('.'), b);
    lemma_named_add(segments(a), seq![dot]);
    lemma_named_add(segments(a) + seq![dot], segments(b));
    assert(q[0] == a[0] && r[0] == a[0] && p[0] == a[0]);
    if a.len() > 1 {
        assert(q[1] == a[1] && r[1] == a[1] && p[1] == a[1]);
    } else {
        assert(q[1] == '/' && r[1] == '/' && p[1] == '/');
    }
}

proof fn lemma_last_dot(name: Seq<char>, n: int, k: int)
    requires
        -1 <= k < n <= name.len(),
        k >= 0 ==> name[k] == '.',
        forall|j: int| k < j < n ==> name[j] != '.',
    ensures
        last_dot(name, n) == k,
    decreases n,
{
    if n - 1 > k {
        lemma_last_dot(name, n - 1, k);
    }
}

/// The extension is what follows the last dot of a name, and the rest is what
/// comes before that dot.
pub proof fn law_extension_follows_the_last_dot(front: Seq<char>, ext: Seq<char>)
    requires
        front.len() > 0,
        !ext.contains('.'),
    ensures
        stem(front.push('.') + ext) == front,
        extension(front.push('.') + ext) == Some(ext),
{
    let name = front.push('.') + ext;
    let k = front.len() as int;
    assert forall|j: int| k < j < name.len() implies name[j] != '.' by {
        assert(name[j] == ext[j - k - 1]);
        assert(ext.contains(ext[j - k - 1]));
    }
    lemma_last_dot(name, name.len() as int, k);
    assert(name.take(k) =~= front);
    assert(name.skip(k + 1) =~= ext);
}

/// A name without a dot behind its first character has no extension.
pub proof fn law_names_without_a_dot_have_no_extension(name: Seq<char>)
    requires
        forall|j: int| 0 < j < name.len() ==> name[j] != '.',
    ensures
        stem(name) == name,
        extension(name) is None,
{
    if name.len() > 0 {
        lemma_last_dot(
            name,
            name.len() as int,
            if name[0] == '.' {
                0
            } else {
                -1
            },
        );
    }
}

} // verus!
