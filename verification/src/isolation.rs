//! The surroundings of the commands that a shell tool runs: a small environment
//! and a session of their own.

use vstd::prelude::*;

verus! {

/// The variables that a command sees of the environment; everything else is
/// kept from it.
pub open spec fn allowed_variables() -> Seq<Seq<char>> {
    seq![
        "PATH"@,
        "HOME"@,
        "USER"@,
        "LOGNAME"@,
        "SHELL"@,
        "TMPDIR"@,
        "TZ"@,
        "LANG"@,
        "LC_ALL"@,
        "LC_CTYPE"@,
        "LC_MESSAGES"@,
        "TAU_VERSION"@,
        "TAU_BUILD"@,
    ]
}

/// The texts of a list of string slices.
pub open spec fn str_views(v: Seq<&'static str>) -> Seq<Seq<char>> {
    Seq::new(v.len(), |i: int| v[i]@)
}

/// The variables that a command sees of the environment.
pub fn env_allowlist() -> (v: Vec<&'static str>)
    ensures
        str_views(v@) == allowed_variables(),
{
    let v = vec![
        "PATH",
        "HOME",
        "USER",
        "LOGNAME",
        "SHELL",
        "TMPDIR",
        "TZ",
        "LANG",
        "LC_ALL",
        "LC_CTYPE",
        "LC_MESSAGES",
        "TAU_VERSION",
        "TAU_BUILD",
    ];
    proof {
        assert(str_views(v@) =~= allowed_variables());
    }
    v
}

/// The variables of the first `n` names that have a value.
pub open spec fn present(names: Seq<Seq<char>>, values: Seq<Option<Seq<char>>>, n: nat) -> Seq<
    (Seq<char>, Seq<char>),
>
    decreases n,
{
    if n == 0 {
        Seq::empty()
    } else {
        let before = present(names, values, (n - 1) as nat);
        match values[n - 1] {
            Some(v) => before.push((names[n - 1], v)),
            None => before,
        }
    }
}

/// The environment of a command: the allowed variables that have a value, and
/// what tells tools to write plain text.
pub open spec fn isolated_env(values: Seq<Option<Seq<char>>>) -> Seq<(Seq<char>, Seq<char>)> {
    present(allowed_variables(), values, allowed_variables().len()) + seq![
        ("TERM"@, "dumb"@),
        ("NO_COLOR"@, "1"@),
        ("CLICOLOR"@, "0"@),
    ]
}

/// The values of a list.
pub open spec fn value_views(v: Seq<Option<String>>) -> Seq<Option<Seq<char>>> {
    Seq::new(
        v.len(),
        |i: int|
            match v[i] {
                Some(s) => Some(s@),
                None => None,
            },
    )
}

/// The variables of a list.
pub open spec fn variable_views(v: Seq<(String, String)>) -> Seq<(Seq<char>, Seq<char>)> {
    Seq::new(v.len(), |i: int| (v[i].0@, v[i].1@))
}

/// The environment of a command, given the values of the allowed variables in
/// their order.
pub fn command_environment(values: &[Option<String>]) -> (env: Vec<(String, String)>)
    requires
        values@.len() == allowed_variables().len(),
    ensures
        variable_views(env@) == isolated_env(value_views(values@)),
{
    let names = env_allowlist();
    let mut env: Vec<(String, String)> = Vec::new();
    let ghost all = value_views(values@);
    let mut i: usize = 0;
    proof {
        assert(names@.len() == str_views(names@).len());
        assert(variable_views(env@) =~= Seq::<(Seq<char>, Seq<char>)>::empty());
    }
    while i < names.len()
        invariant
            i <= names@.len(),
            str_views(names@) == allowed_variables(),
            names@.len() == allowed_variables().len(),
            values@.len() == allowed_variables().len(),
            all == value_views(values@),
            variable_views(env@) == present(allowed_variables(), all, i as nat),
        decreases names@.len() - i,
    {
        let ghost before = env@;
        proof {
            assert(allowed_variables()[i as int] == names@[i as int]@);
        }
        if let Some(value) = &values[i] {
            env.push((names[i].to_owned(), value.clone()));
            proof {
                assert(variable_views(env@) =~= variable_views(before).push(
                    (names@[i as int]@, value@),
                ));
            }
        }
        i = i + 1;
    }
    let ghost before = env@;
    env.push(("TERM".to_owned(), "dumb".to_owned()));
    env.push(("NO_COLOR".to_owned(), "1".to_owned()));
    env.push(("CLICOLOR".to_owned(), "0".to_owned()));
    proof {
        assert(variable_views(env@) =~= variable_views(before) + seq![
            ("TERM"@, "dumb"@),
            ("NO_COLOR"@, "1"@),
            ("CLICOLOR"@, "0"@),
        ]);
    }
    env
}

/// Whether a command may start after it asked for a session of its own. To be
/// refused with `eperm` means that it leads one already.
pub fn may_start(refused: bool, error: Option<i32>, eperm: i32) -> (r: bool)
    ensures
        r == (!refused || error == Some(eperm)),
{
    if !refused {
        return true;
    }
    match error {
        Some(e) => e == eperm,
        None => false,
    }
}

/// A command sees no variable but the allowed ones and the three that it is
/// given.
pub proof fn law_environment_is_closed(values: Seq<Option<Seq<char>>>, i: int)
    requires
        values.len() == allowed_variables().len(),
        0 <= i < isolated_env(values).len(),
    ensures
        allowed_variables().contains(isolated_env(values)[i].0) || isolated_env(values)[i] == (
            "TERM"@,
            "dumb"@,
        ) || isolated_env(values)[i] == ("NO_COLOR"@, "1"@) || isolated_env(values)[i] == (
            "CLICOLOR"@,
            "0"@,
        ),
{
    let n = allowed_variables().len();
    let front = present(allowed_variables(), values, n);
    if i < front.len() {
        lemma_present(allowed_variables(), values, n, i);
        assert(isolated_env(values)[i] == front[i]);
    }
}

proof fn lemma_present(names: Seq<Seq<char>>, values: Seq<Option<Seq<char>>>, n: nat, i: int)
    requires
        n <= names.len(),
        0 <= i < present(names, values, n).len(),
    ensures
        names.contains(present(names, values, n)[i].0),
    decreases n,
{
    let before = present(names, values, (n - 1) as nat);
    if i < before.len() {
        lemma_present(names, values, (n - 1) as nat, i);
    } else {
        assert(names[n - 1] == present(names, values, n)[i].0);
    }
}

/// A command sees every allowed variable that is set, with its value, and none
/// that is not set.
pub proof fn law_set_variables_are_passed_on(values: Seq<Option<Seq<char>>>, j: int)
    requires
        values.len() == allowed_variables().len(),
        0 <= j < values.len(),
    ensures
        values[j] matches Some(v) ==> isolated_env(values).contains((allowed_variables()[j], v)),
        isolated_env(values).len() == values.filter(|v: Option<Seq<char>>| v is Some).len() + 3,
{
    let n = allowed_variables().len();
    let front = present(allowed_variables(), values, n);
    assert(values.take(n as int) =~= values);
    lemma_present_count(allowed_variables(), values, n);
    if let Some(v) = values[j] {
        lemma_present_value(allowed_variables(), values, n, j);
        let k = choose|k: int| 0 <= k < front.len() && front[k] == (allowed_variables()[j], v);
        assert(isolated_env(values)[k] == (allowed_variables()[j], v));
    }
}

proof fn lemma_present_value(
    names: Seq<Seq<char>>,
    values: Seq<Option<Seq<char>>>,
    n: nat,
    j: int,
)
    requires
        0 <= j < n <= names.len(),
        values[j] is Some,
    ensures
        present(names, values, n).contains((names[j], values[j]->0)),
    decreases n,
{
    let out = present(names, values, n);
    let before = present(names, values, (n - 1) as nat);
    if j < n - 1 {
        lemma_present_value(names, values, (n - 1) as nat, j);
        let k = choose|k: int| 0 <= k < before.len() && before[k] == (names[j], values[j]->0);
        assert(out[k] == before[k]);
    } else {
        assert(out.last() == (names[j], values[j]->0));
    }
}

proof fn lemma_present_count(names: Seq<Seq<char>>, values: Seq<Option<Seq<char>>>, n: nat)
    requires
        n <= values.len(),
    ensures
        present(names, values, n).len() == values.take(n as int).filter(
            |v: Option<Seq<char>>| v is Some,
        ).len(),
    decreases n,
{
    let some = |v: Option<Seq<char>>| v is Some;
    reveal(Seq::filter);
    if n > 0 {
        lemma_present_count(names, values, (n - 1) as nat);
        assert(values.take(n as int).drop_last() =~= values.take(n - 1));
        assert(values.take(n as int).last() == values[n - 1]);
    }
}

} // verus!
