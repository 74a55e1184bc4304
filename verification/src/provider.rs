//! Providers of models: their kinds, their names, and the credentials stored
//! for them, one file for each provider.

use crate::path::{
    extension, file_name, join, joined, law_extension_follows_the_last_dot, law_join_gives_name,
    parent, shrunk, split_extension, stem,
};
use crate::table::{law_put_binds_one_key, lookup, ordered, put, without, TextMap};
use crate::text::{str_eq, to_chars};
use vstd::prelude::*;

verus! {

// ---------------------------------------------------------------------------
// Kinds
// ---------------------------------------------------------------------------

/// The kind of a provider, which decides how to log in.
#[derive(Clone, Copy, Debug, PartialEq, Eq, Structural)]
pub enum ProviderKind {
    /// A local Ollama or llama.cpp server, without authentication.
    Ollama,
    /// OpenAI with an API key.
    Openai,
    /// OpenAI with a ChatGPT subscription.
    OpenaiCodex,
    /// Anthropic with an API key.
    Anthropic,
    /// A GitHub Copilot subscription.
    GithubCopilot,
}

/// The name of a kind for people.
pub open spec fn kind_name(kind: ProviderKind) -> Seq<char> {
    match kind {
        ProviderKind::Ollama => "Ollama (local)"@,
        ProviderKind::Openai => "OpenAI (API key)"@,
        ProviderKind::OpenaiCodex => "OpenAI Codex (ChatGPT subscription)"@,
        ProviderKind::Anthropic => "Anthropic (API key)"@,
        ProviderKind::GithubCopilot => "GitHub Copilot (subscription)"@,
    }
}

impl ProviderKind {
    /// The name of this kind for people.
    pub fn display_name(&self) -> (s: &'static str)
        ensures
            s@ == kind_name(*self),
    {
        match self {
            ProviderKind::Ollama => "Ollama (local)",
            ProviderKind::Openai => "OpenAI (API key)",
            ProviderKind::OpenaiCodex => "OpenAI Codex (ChatGPT subscription)",
            ProviderKind::Anthropic => "Anthropic (API key)",
            ProviderKind::GithubCopilot => "GitHub Copilot (subscription)",
        }
    }

    /// Whether logging in goes through OAuth.
    pub fn requires_oauth(&self) -> (r: bool)
        ensures
            r == (*self is OpenaiCodex || *self is GithubCopilot),
    {
        matches!(self, ProviderKind::OpenaiCodex | ProviderKind::GithubCopilot)
    }

    /// All kinds.
    pub fn all() -> (kinds: Vec<ProviderKind>)
        ensures
            kinds@ == seq![
                ProviderKind::Ollama,
                ProviderKind::Openai,
                ProviderKind::OpenaiCodex,
                ProviderKind::Anthropic,
                ProviderKind::GithubCopilot,
            ],
            kinds@.no_duplicates(),
            forall|kind: ProviderKind| #[trigger] kinds@.contains(kind),
    {
        proof {
            let all = seq![
                ProviderKind::Ollama,
                ProviderKind::Openai,
                ProviderKind::OpenaiCodex,
                ProviderKind::Anthropic,
                ProviderKind::GithubCopilot,
            ];
            assert forall|kind: ProviderKind| #[trigger] all.contains(kind) by {
                match kind {
                    ProviderKind::Ollama => assert(all[0] == kind),
                    ProviderKind::Openai => assert(all[1] == kind),
                    ProviderKind::OpenaiCodex => assert(all[2] == kind),
                    ProviderKind::Anthropic => assert(all[3] == kind),
                    ProviderKind::GithubCopilot => assert(all[4] == kind),
                }
            }
        }
        vec![
            ProviderKind::Ollama,
            ProviderKind::Openai,
            ProviderKind::OpenaiCodex,
            ProviderKind::Anthropic,
            ProviderKind::GithubCopilot,
        ]
    }
}

/// What a server can do beyond the plain protocol.
#[derive(Clone, Copy, Debug, PartialEq, Eq, Structural)]
pub struct ProviderCompat {
    pub supports_llama_cpp_cache: bool,
}

/// What is written down for a new provider.
#[derive(Clone, Debug, PartialEq, Eq)]
pub struct ProviderEntry {
    pub auth: Option<String>,
    pub api: Option<String>,
    pub compat: ProviderCompat,
}

/// What is written down for a new provider. Only a local server has defaults: it
/// needs no authentication, speaks the completions protocol and caches prompts
/// as llama.cpp does.
pub fn build_provider_entry(kind: &ProviderKind) -> (e: ProviderEntry)
    ensures
        e.compat.supports_llama_cpp_cache == (*kind is Ollama),
        match e.auth {
            Some(s) => *kind is Ollama && s@ == "none"@,
            None => !(*kind is Ollama),
        },
        match e.api {
            Some(s) => *kind is Ollama && s@ == "openai-completions"@,
            None => !(*kind is Ollama),
        },
{
    match kind {
        ProviderKind::Ollama => ProviderEntry {
            auth: Some("none".to_owned()),
            api: Some("openai-completions".to_owned()),
            compat: ProviderCompat { supports_llama_cpp_cache: true },
        },
        _ => ProviderEntry {
            auth: None,
            api: None,
            compat: ProviderCompat { supports_llama_cpp_cache: false },
        },
    }
}

// ---------------------------------------------------------------------------
// Names
// ---------------------------------------------------------------------------

/// The characters of the name of a provider.
pub open spec fn is_provider_char(c: char) -> bool {
    ||| 'a' <= c <= 'z'
    ||| 'A' <= c <= 'Z'
    ||| '0' <= c <= '9'
    ||| c == '-'
    ||| c == '_'
    ||| c == '.'
}

/// Whether a text can be the name of a provider: it can stand in a path as the
/// name of a file, is not hidden there, and is not taken for an option.
pub open spec fn is_provider_name(s: Seq<char>) -> bool {
    &&& s.len() > 0
    &&& s[0] != '.'
    &&& s[0] != '-'
    &&& forall|i: int| 0 <= i < s.len() ==> is_provider_char(#[trigger] s[i])
}

/// The name of a provider.
#[derive(Debug)]
pub struct ProviderName {
    name: String,
}

impl View for ProviderName {
    type V = Seq<char>;

    closed spec fn view(&self) -> Seq<char> {
        self.name@
    }
}

/// A text that cannot be the name of a provider.
#[derive(Debug)]
pub struct InvalidProviderName {
    pub name: String,
}

impl ProviderName {
    #[verifier::type_invariant]
    spec fn well_formed(self) -> bool {
        is_provider_name(self.name@)
    }

    /// The provider of that name.
    pub fn try_new(name: String) -> (r: Result<Self, InvalidProviderName>)
        ensures
            match r {
                Ok(p) => is_provider_name(name@) && p@ == name@,
                Err(e) => !is_provider_name(name@) && e.name@ == name@,
            },
    {
        let chars = to_chars(name.as_str());
        let mut good = chars.len() > 0 && chars[0] != '.' && chars[0] != '-';
        let mut i: usize = 0;
        while i < chars.len()
            invariant
                i <= chars@.len(),
                chars@ == name@,
                good == (chars@.len() > 0 && chars@[0] != '.' && chars@[0] != '-' && forall|j: int|
                    0 <= j < i ==> is_provider_char(#[trigger] chars@[j])),
            decreases chars@.len() - i,
        {
            let c = chars[i];
            let fits = ('a' <= c && c <= 'z') || ('A' <= c && c <= 'Z') || ('0' <= c && c <= '9')
                || c == '-' || c == '_' || c == '.';
            proof {
                assert(fits == is_provider_char(chars@[i as int]));
            }
            good = good && fits;
            i = i + 1;
        }
        if good {
            Ok(ProviderName { name })
        } else {
            Err(InvalidProviderName { name })
        }
    }

    /// The name.
    pub fn as_str(&self) -> (s: &str)
        ensures
            s@ == self@,
            is_provider_name(self@),
    {
        proof {
            use_type_invariant(self);
        }
        self.name.as_str()
    }
}

// ---------------------------------------------------------------------------
// Places
// ---------------------------------------------------------------------------

/// The directories of the platform.
#[derive(Clone, Debug)]
pub struct PlatformDirs {
    pub state: Option<String>,
    pub data_local: Option<String>,
}

/// Where the state is kept: in the state directory, or in the local data
/// directory on a platform that has no other.
pub open spec fn state_place(dirs: PlatformDirs) -> Option<Seq<char>> {
    match dirs.state {
        Some(d) => Some(joined(d@, "tau"@)),
        None => match dirs.data_local {
            Some(d) => Some(joined(d@, "tau"@)),
            None => None,
        },
    }
}

/// A place below the state.
pub open spec fn state_path(dirs: PlatformDirs, name: Seq<char>) -> Option<Seq<char>> {
    match state_place(dirs) {
        Some(d) => Some(joined(d, name)),
        None => None,
    }
}

/// The text of an optional string.
pub open spec fn string_opt(s: Option<String>) -> Option<Seq<char>> {
    match s {
        Some(s) => Some(s@),
        None => None,
    }
}

/// Where the state is kept.
pub fn state_dir(dirs: &PlatformDirs) -> (r: Option<String>)
    ensures
        string_opt(r) == state_place(*dirs),
{
    match &dirs.state {
        Some(d) => Some(join(d.as_str(), "tau")),
        None => match &dirs.data_local {
            Some(d) => Some(join(d.as_str(), "tau")),
            None => None,
        },
    }
}

/// The file that held all credentials once; it is read, and never written but to
/// take an entry away.
pub fn auth_path(dirs: &PlatformDirs) -> (r: Option<String>)
    ensures
        string_opt(r) == state_path(*dirs, "auth.json"@),
{
    match state_dir(dirs) {
        Some(d) => Some(join(d.as_str(), "auth.json")),
        None => None,
    }
}

/// The directory of the credentials.
pub fn auth_dir(dirs: &PlatformDirs) -> (r: Option<String>)
    ensures
        string_opt(r) == state_path(*dirs, "auth.d"@),
{
    match state_dir(dirs) {
        Some(d) => Some(join(d.as_str(), "auth.d")),
        None => None,
    }
}

/// The file with the credentials of a provider.
pub open spec fn provider_path(dirs: PlatformDirs, name: Seq<char>) -> Option<Seq<char>> {
    match state_path(dirs, "auth.d"@) {
        Some(d) => Some(joined(d, name + ".json"@)),
        None => None,
    }
}

/// The file with the credentials of a provider.
pub fn provider_auth_path(dirs: &PlatformDirs, provider_name: &ProviderName) -> (r: Result<
    String,
    String,
>)
    ensures
        match r {
            Ok(p) => provider_path(*dirs, provider_name@) == Some(p@),
            Err(e) => provider_path(*dirs, provider_name@) is None && e@
                == "cannot determine data directory"@,
        },
{
    match auth_dir(dirs) {
        Some(d) => {
            let mut name = provider_name.as_str().to_owned();
            name.append(".json");
            Ok(join(d.as_str(), name.as_str()))
        },
        None => Err("cannot determine data directory".to_owned()),
    }
}

/// The name that a file of the directory gives its provider. A file with another
/// extension and a name that is no text give none.
pub open spec fn file_provider(name: Option<Seq<char>>, is_file: bool) -> Option<Seq<char>> {
    match name {
        Some(n) => if is_file && extension(n) == Some("json"@) {
            Some(stem(n))
        } else {
            None
        },
        None => None,
    }
}

/// The provider whose credentials a file of the directory holds, if it holds any.
/// It is an error where the file gives a name that no provider can have.
pub fn provider_of_file(name: Option<&str>, is_file: bool) -> (r: Result<
    Option<ProviderName>,
    InvalidProviderName,
>)
    ensures
        match r {
            Ok(Some(p)) => file_provider(crate::cbor::str_opt(name), is_file) == Some(p@)
                && is_provider_name(p@),
            Ok(None) => file_provider(crate::cbor::str_opt(name), is_file) is None,
            Err(e) => file_provider(crate::cbor::str_opt(name), is_file) == Some(e.name@)
                && !is_provider_name(e.name@),
        },
{
    let name = match name {
        Some(name) => name,
        None => {
            return Ok(None);
        },
    };
    if !is_file {
        return Ok(None);
    }
    let (stem, extension) = split_extension(name);
    match extension {
        Some(e) if str_eq(e.as_str(), "json") => match ProviderName::try_new(stem) {
            Ok(p) => Ok(Some(p)),
            Err(e) => Err(e),
        },
        _ => Ok(None),
    }
}

// ---------------------------------------------------------------------------
// Credentials
// ---------------------------------------------------------------------------

/// The credentials of one provider.
#[derive(Clone, Debug)]
pub enum Credentials {
    /// No authentication.
    NoAuth { provider_kind: ProviderKind, base_url: Option<String> },
    /// An API key.
    ApiKey { provider_kind: ProviderKind, api_key: String },
    /// A pair of OAuth tokens.
    Oauth {
        provider_kind: ProviderKind,
        access_token: String,
        refresh_token: String,
        /// When the access token expires, in milliseconds since the epoch.
        expires_at_ms: u64,
        account_id: Option<String>,
    },
}

/// What [`Credentials`] say.
#[verifier::ext_equal]
pub enum CredentialsModel {
    NoAuth { kind: ProviderKind, base_url: Option<Seq<char>> },
    ApiKey { kind: ProviderKind, api_key: Seq<char> },
    Oauth {
        kind: ProviderKind,
        access_token: Seq<char>,
        refresh_token: Seq<char>,
        expires_at_ms: u64,
        account_id: Option<Seq<char>>,
    },
}

impl View for Credentials {
    type V = CredentialsModel;

    open spec fn view(&self) -> CredentialsModel {
        match self {
            Credentials::NoAuth { provider_kind, base_url } => CredentialsModel::NoAuth {
                kind: *provider_kind,
                base_url: string_opt(*base_url),
            },
            Credentials::ApiKey { provider_kind, api_key } => CredentialsModel::ApiKey {
                kind: *provider_kind,
                api_key: api_key@,
            },
            Credentials::Oauth {
                provider_kind,
                access_token,
                refresh_token,
                expires_at_ms,
                account_id,
            } => CredentialsModel::Oauth {
                kind: *provider_kind,
                access_token: access_token@,
                refresh_token: refresh_token@,
                expires_at_ms: *expires_at_ms,
                account_id: string_opt(*account_id),
            },
        }
    }
}

/// The kind of provider that credentials are for.
pub open spec fn kind_of(c: CredentialsModel) -> ProviderKind {
    match c {
        CredentialsModel::NoAuth { kind, .. } => kind,
        CredentialsModel::ApiKey { kind, .. } => kind,
        CredentialsModel::Oauth { kind, .. } => kind,
    }
}

impl Credentials {
    /// The kind of provider they are for.
    pub fn provider_kind(&self) -> (k: &ProviderKind)
        ensures
            *k == kind_of(self@),
    {
        match self {
            Credentials::NoAuth { provider_kind, .. } => provider_kind,
            Credentials::ApiKey { provider_kind, .. } => provider_kind,
            Credentials::Oauth { provider_kind, .. } => provider_kind,
        }
    }
}

/// The credentials of all providers.
#[derive(Debug)]
pub struct AuthStore {
    providers: TextMap<Credentials>,
}

impl View for AuthStore {
    type V = Seq<(Seq<char>, CredentialsModel)>;

    closed spec fn view(&self) -> Seq<(Seq<char>, CredentialsModel)> {
        self.providers@
    }
}

/// The entries with those of some files put in, one after the other.
pub open spec fn with_files(
    entries: Seq<(Seq<char>, CredentialsModel)>,
    files: Seq<(Seq<char>, CredentialsModel)>,
) -> Seq<(Seq<char>, CredentialsModel)>
    decreases files.len(),
{
    if files.len() == 0 {
        entries
    } else {
        put(with_files(entries, files.drop_last()), files.last().0, files.last().1)
    }
}

/// What the files say.
pub open spec fn file_views(files: Seq<(ProviderName, Credentials)>) -> Seq<
    (Seq<char>, CredentialsModel),
> {
    Seq::new(files.len(), |i: int| (files[i].0@, files[i].1@))
}

impl AuthStore {
    /// Whether the entries stand in order.
    pub open spec fn wf(&self) -> bool {
        ordered(self@)
    }

    /// A store without credentials.
    pub fn new() -> (s: Self)
        ensures
            s.wf(),
            s@.len() == 0,
    {
        AuthStore { providers: TextMap::new() }
    }

    /// Number of providers.
    pub fn len(&self) -> (n: usize)
        ensures
            n == self@.len(),
    {
        self.providers.len()
    }

    /// The entry at the given place in the order of the names.
    pub fn entry(&self, i: usize) -> (e: (&str, &Credentials))
        requires
            i < self@.len(),
        ensures
            (e.0@, e.1@) == self@[i as int],
    {
        self.providers.entry(i)
    }

    /// The credentials of a provider.
    pub fn get(&self, provider_name: &ProviderName) -> (r: Option<&Credentials>)
        requires
            self.wf(),
        ensures
            match r {
                Some(c) => lookup(self@, provider_name@) == Some(c@),
                None => lookup(self@, provider_name@) is None,
            },
    {
        self.providers.get(provider_name.as_str())
    }

    /// Puts in the credentials of a provider.
    pub fn insert(&mut self, provider_name: &ProviderName, credentials: Credentials)
        requires
            old(self).wf(),
        ensures
            final(self).wf(),
            final(self)@ == put(old(self)@, provider_name@, credentials@),
    {
        self.providers.insert(provider_name.as_str().to_owned(), credentials);
    }

    /// Takes away the credentials of a provider; says whether there were any.
    pub fn remove(&mut self, provider_name: &ProviderName) -> (removed: bool)
        requires
            old(self).wf(),
        ensures
            final(self).wf(),
            final(self)@ == without(old(self)@, provider_name@),
            removed == (lookup(old(self)@, provider_name@) is Some),
    {
        self.providers.remove(provider_name.as_str())
    }

    /// All credentials: those of the old common file, if there is one, and those
    /// of the files of the providers, which count where both have some.
    pub fn load(legacy: Option<AuthStore>, files: Vec<(ProviderName, Credentials)>) -> (s: Self)
        requires
            legacy matches Some(l) ==> l.wf(),
        ensures
            s.wf(),
            s@ == with_files(
                match legacy {
                    Some(l) => l@,
                    None => Seq::empty(),
                },
                file_views(files@),
            ),
    {
        let mut store = match legacy {
            Some(l) => l,
            None => AuthStore::new(),
        };
        let ghost start = store@;
        let ghost all = file_views(files@);
        let ghost given = files@;
        let mut left = files;
        let count = left.len();
        let mut i: usize = 0;
        proof {
            assert(all.take(0) =~= Seq::<(Seq<char>, CredentialsModel)>::empty());
            assert(given.skip(0) =~= given);
            if legacy is None {
                assert(start =~= Seq::<(Seq<char>, CredentialsModel)>::empty());
            }
        }
        while i < count
            invariant
                i <= count,
                count == given.len(),
                all == file_views(given),
                left@ == given.skip(i as int),
                store.wf(),
                store@ == with_files(start, all.take(i as int)),
            decreases count - i,
        {
            let file = left.remove(0);
            proof {
                assert(given.skip(i as int)[0] == given[i as int]);
                assert(given.skip(i as int).remove(0) =~= given.skip(i + 1));
                assert(all.take(i + 1).drop_last() =~= all.take(i as int));
                assert(all.take(i + 1).last() == (file.0@, file.1@));
            }
            let (name, credentials) = file;
            store.insert(&name, credentials);
            i = i + 1;
        }
        proof {
            assert(all.take(i as int) =~= all);
        }
        store
    }
}

/// What removing the credentials of a provider comes to.
#[derive(Debug)]
pub struct Deletion {
    /// Whether anything changed on disk.
    pub changed: bool,
    /// The common file as it is to be written again.
    pub rewrite: Option<AuthStore>,
}

/// What removing the credentials of a provider comes to, once its file was
/// removed or found missing. The old common file is written again only if it
/// had an entry for the provider.
pub fn delete_provider(
    provider_name: &ProviderName,
    file_removed: bool,
    legacy: Option<AuthStore>,
) -> (d: Deletion)
    requires
        legacy matches Some(l) ==> l.wf(),
    ensures
        ({
            let listed = legacy matches Some(l) && lookup(l@, provider_name@) is Some;
            &&& d.changed == (file_removed || listed)
            &&& d.rewrite is Some == listed
            &&& d.rewrite matches Some(s) ==> s.wf() && s@ == without(
                legacy->0@,
                provider_name@,
            )
        }),
{
    match legacy {
        Some(store) => {
            let mut store = store;
            if store.remove(provider_name) {
                Deletion { changed: true, rewrite: Some(store) }
            } else {
                Deletion { changed: file_removed, rewrite: None }
            }
        },
        None => Deletion { changed: file_removed, rewrite: None },
    }
}

// ---------------------------------------------------------------------------
// Laws
// ---------------------------------------------------------------------------

/// The file of a provider lies directly in the directory of the credentials,
/// and is the file of that provider alone.
pub proof fn law_provider_files_stay_in_place(dirs: PlatformDirs, name: Seq<char>)
    requires
        is_provider_name(name),
        state_path(dirs, "auth.d"@) is Some,
    ensures
        parent(provider_path(dirs, name)->0) == Some(shrunk(state_path(dirs, "auth.d"@)->0)),
        file_name(provider_path(dirs, name)->0) == Some(name + ".json"@),
        file_provider(Some(name + ".json"@), true) == Some(name),
{
    reveal_strlit(".json");
    reveal_strlit("json");
    reveal_strlit("auth.d");
    let dir = state_path(dirs, "auth.d"@)->0;
    let file = name + ".json"@;
    assert(dir.len() > 0);
    assert(!file.contains('/')) by {
        assert forall|i: int| 0 <= i < file.len() implies file[i] != '/' by {
            if i < name.len() {
                assert(file[i] == name[i]);
                assert(is_provider_char(name[i]));
            } else {
                assert(file[i] == ".json"@[i - name.len()]);
            }
        }
    }
    assert(file.len() >= 6);
    assert(file != seq!['.'] && file != seq!['.', '.']) by {
        assert(seq!['.'].len() == 1 && seq!['.', '.'].len() == 2);
    }
    law_join_gives_name(dir, file);
    let n = file.len() as int;
    let k = name.len() as int;
    assert(file[n - 1] == ".json"@[4]);
    assert(file[n - 2] == ".json"@[3]);
    assert(file[n - 3] == ".json"@[2]);
    assert(file[n - 4] == ".json"@[1]);
    assert(file[n - 5] == ".json"@[0]);
    reveal_with_fuel(crate::path::last_dot, 6);
    assert(crate::path::last_dot(file, n) == k);
    assert(file.take(k) =~= name);
    assert(file.skip(k + 1) =~= "json"@);
}

/// What a file of a provider says counts, and the common file counts for those
/// who have none.
pub proof fn law_files_override_common_file(
    entries: Seq<(Seq<char>, CredentialsModel)>,
    files: Seq<(Seq<char>, CredentialsModel)>,
    name: Seq<char>,
)
    requires
        ordered(entries),
    ensures
        ordered(with_files(entries, files)),
        (forall|i: int| 0 <= i < files.len() ==> (#[trigger] files[i]).0 != name) ==> lookup(
            with_files(entries, files),
            name,
        ) == lookup(entries, name),
        forall|i: int|
            #![trigger files[i]]
            0 <= i < files.len() && files[i].0 == name && (forall|j: int|
                i < j < files.len() ==> (#[trigger] files[j]).0 != name) ==> lookup(
                with_files(entries, files),
                name,
            ) == Some(files[i].1),
{
    lemma_files_ordered(entries, files);
    if forall|i: int| 0 <= i < files.len() ==> (#[trigger] files[i]).0 != name {
        lemma_no_file(entries, files, name);
    }
    assert forall|i: int|
        #![trigger files[i]]
        0 <= i < files.len() && files[i].0 == name && (forall|j: int|
            i < j < files.len() ==> (#[trigger] files[j]).0 != name) implies lookup(
        with_files(entries, files),
        name,
    ) == Some(files[i].1) by {
        lemma_last_file(entries, files, i);
    }
}

proof fn lemma_files_ordered(
    entries: Seq<(Seq<char>, CredentialsModel)>,
    files: Seq<(Seq<char>, CredentialsModel)>,
)
    requires
        ordered(entries),
    ensures
        ordered(with_files(entries, files)),
    decreases files.len(),
{
    if files.len() > 0 {
        let before = with_files(entries, files.drop_last());
        lemma_files_ordered(entries, files.drop_last());
        law_put_binds_one_key(before, files.last().0, files.last().1, files.last().0);
    }
}

proof fn lemma_no_file(
    entries: Seq<(Seq<char>, CredentialsModel)>,
    files: Seq<(Seq<char>, CredentialsModel)>,
    name: Seq<char>,
)
    requires
        ordered(entries),
        forall|i: int| 0 <= i < files.len() ==> (#[trigger] files[i]).0 != name,
    ensures
        lookup(with_files(entries, files), name) == lookup(entries, name),
    decreases files.len(),
{
    if files.len() > 0 {
        let front = files.drop_last();
        let last = files[files.len() - 1];
        assert(last.0 != name);
        assert forall|i: int| 0 <= i < front.len() implies (#[trigger] front[i]).0 != name by {
            assert(front[i] == files[i]);
        }
        lemma_no_file(entries, front, name);
        lemma_files_ordered(entries, front);
        law_put_binds_one_key(with_files(entries, front), last.0, last.1, name);
    }
}

proof fn lemma_last_file(
    entries: Seq<(Seq<char>, CredentialsModel)>,
    files: Seq<(Seq<char>, CredentialsModel)>,
    i: int,
)
    requires
        ordered(entries),
        0 <= i < files.len(),
        forall|j: int| i < j < files.len() ==> (#[trigger] files[j]).0 != files[i].0,
    ensures
        lookup(with_files(entries, files), files[i].0) == Some(files[i].1),
    decreases files.len(),
{
    let front = files.drop_last();
    let last = files[files.len() - 1];
    lemma_files_ordered(entries, front);
    law_put_binds_one_key(with_files(entries, front), last.0, last.1, files[i].0);
    if i < files.len() - 1 {
        assert(last.0 != files[i].0);
        assert(front[i] == files[i]);
        assert forall|j: int| i < j < front.len() implies (#[trigger] front[j]).0
            != front[i].0 by {
            assert(front[j] == files[j]);
        }
        lemma_last_file(entries, front, i);
    }
}

/// The state is kept in a directory of its own, below that of the platform for
/// state, or where there is none, below that for local data.
pub proof fn law_state_has_a_directory_of_its_own(dirs: PlatformDirs, dir: Seq<char>)
    requires
        dir.len() > 0,
        match dirs.state {
            Some(d) => d@ == dir,
            None => dirs.data_local matches Some(d) && d@ == dir,
        },
    ensures
        state_place(dirs) matches Some(place) && file_name(place) == Some("tau"@) && parent(place)
            == Some(shrunk(dir)),
{
    reveal_strlit("tau");
    let name = "tau"@;
    assert(name.len() == 3 && name[0] == 't' && name[1] == 'a' && name[2] == 'u');
    assert(seq!['.'].len() == 1 && seq!['.', '.'].len() == 2);
    law_join_gives_name(dir, name);
}

/// What is kept in the state lies directly in its directory.
pub proof fn law_state_files_lie_in_its_directory(
    dirs: PlatformDirs,
    place: Seq<char>,
    name: Seq<char>,
)
    requires
        state_place(dirs) == Some(place),
        place.len() > 0,
        name.len() > 0,
        !name.contains('/'),
        name != seq!['.'],
        name != seq!['.', '.'],
    ensures
        state_path(dirs, name) matches Some(path) && file_name(path) == Some(name) && parent(path)
            == Some(shrunk(place)),
{
    law_join_gives_name(place, name);
}

/// A file of credentials is a file with the right extension, whatever stands
/// before it; nothing else is one.
pub proof fn law_credentials_are_told_by_their_extension(
    front: Seq<char>,
    ext: Seq<char>,
    is_file: bool,
)
    requires
        front.len() > 0,
        !ext.contains('.'),
    ensures
        file_provider(Some(front.push('.') + ext), is_file) == if is_file && ext == "json"@ {
            Some(front)
        } else {
            None
        },
        file_provider(None, is_file) is None,
{
    law_extension_follows_the_last_dot(front, ext);
}

/// Kinds of providers can be told apart by their names.
pub proof fn law_kinds_have_names_of_their_own(a: ProviderKind, b: ProviderKind)
    ensures
        kind_name(a) == kind_name(b) <==> a == b,
{
    reveal_strlit("Ollama (local)");
    reveal_strlit("OpenAI (API key)");
    reveal_strlit("OpenAI Codex (ChatGPT subscription)");
    reveal_strlit("Anthropic (API key)");
    reveal_strlit("GitHub Copilot (subscription)");
    assert("Ollama (local)"@.len() == 14 && "OpenAI (API key)"@.len() == 16
        && "OpenAI Codex (ChatGPT subscription)"@.len() == 35 && "Anthropic (API key)"@.len() == 19
        && "GitHub Copilot (subscription)"@.len() == 29);
}

} // verus!
