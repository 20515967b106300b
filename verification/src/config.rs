//! The configuration of a workspace and what the server makes of it.
use vstd::prelude::*;
use vstd::string::*;

use crate::diagnostics::has_text;
use crate::docs::Platform;
use crate::names::NameMap;
use crate::navigation::GlobalDoc;
use crate::strings::{part_start, root, root_of, same, texts};

verus! {

/// Full user configuration, as it stands in the workspace root.
pub struct Config {
    /// Target Lua platform: "lua51", "lua52", "lua53", "lua54" (default), "luajit", "luau"
    pub platform: Option<String>,
    /// Extra global names that suppress unknown-identifier warnings but have no hover docs.
    /// Roots inferred from `global_docs` keys are added automatically.
    pub known_globals: Option<Vec<String>>,
    /// Per-symbol hover documentation. Keys are exact Fennel symbols (dots for namespaces).
    pub global_docs: Option<NameMap<GlobalDoc>>,
    /// Emit a hint-level diagnostic on macro calls that have no hook defined.
    /// Default: false.
    pub warn_unhooked_macros: Option<bool>,
}

impl Config {
    /// The configuration of a workspace that has none.
    pub fn new() -> (r: Config)
        ensures
            r.platform is None,
            r.known_globals is None,
            r.global_docs is None,
            r.warn_unhooked_macros is None,
    {
        Config {
            platform: None,
            known_globals: None,
            global_docs: None,
            warn_unhooked_macros: None,
        }
    }
}

/// What a configuration asks of the server.
pub struct Settings {
    /// The platform, where the configuration names one that is known.
    pub platform: Option<Platform>,
    /// The names that count as known globals, each once.
    pub extra_globals: Vec<String>,
    pub global_docs: NameMap<GlobalDoc>,
    pub warn_unhooked_macros: bool,
}

/// The platform of a name.
pub open spec fn platform_named(s: Seq<char>) -> Option<Platform> {
    if s == "lua51"@ {
        Some(Platform::Lua51)
    } else if s == "lua52"@ {
        Some(Platform::Lua52)
    } else if s == "lua53"@ {
        Some(Platform::Lua53)
    } else if s == "lua54"@ {
        Some(Platform::Lua54)
    } else if s == "luajit"@ {
        Some(Platform::LuaJIT)
    } else if s == "luau"@ {
        Some(Platform::Luau)
    } else {
        None
    }
}

pub fn platform_from_str(s: &str) -> (r: Option<Platform>)
    ensures
        r == platform_named(s@),
{
    if same(s, "lua51") {
        Some(Platform::Lua51)
    } else if same(s, "lua52") {
        Some(Platform::Lua52)
    } else if same(s, "lua53") {
        Some(Platform::Lua53)
    } else if same(s, "lua54") {
        Some(Platform::Lua54)
    } else if same(s, "luajit") {
        Some(Platform::LuaJIT)
    } else if same(s, "luau") {
        Some(Platform::Luau)
    } else {
        None
    }
}

/// The names and one more, unless it is among them.
pub open spec fn with_global(names: Seq<Seq<char>>, name: Seq<char>) -> Seq<Seq<char>> {
    if names.contains(name) {
        names
    } else {
        names.push(name)
    }
}

/// The first `k` of some names, each once.
pub open spec fn each_once(names: Seq<Seq<char>>, k: int) -> Seq<Seq<char>>
    decreases k,
{
    if 0 < k <= names.len() {
        with_global(each_once(names, k - 1), names[k - 1])
    } else {
        Seq::empty()
    }
}

/// The names, and the roots of the first `k` documented symbols. A symbol that
/// is all joints has no root.
pub open spec fn with_roots<T>(names: Seq<Seq<char>>, docs: Seq<(Seq<char>, T)>, k: int) -> Seq<
    Seq<char>,
>
    decreases k,
{
    if 0 < k <= docs.len() {
        let before = with_roots(names, docs, k - 1);
        let key = docs[k - 1].0;
        if part_start(key, 0) < key.len() {
            with_global(before, root_of(key))
        } else {
            before
        }
    } else {
        names
    }
}

/// All the globals that a configuration makes known.
pub open spec fn globals_of(c: Config) -> Seq<Seq<char>> {
    let known = match c.known_globals {
        Some(v) => each_once(texts(v@), v@.len() as int),
        None => Seq::empty(),
    };
    match c.global_docs {
        Some(docs) => with_roots(known, docs@, docs@.len() as int),
        None => known,
    }
}

fn add_global(names: &mut Vec<String>, name: String)
    ensures
        texts(final(names)@) == with_global(texts(old(names)@), name@),
{
    let ghost before = texts(names@);
    if !has_text(names, &name) {
        names.push(name);
        assert(texts(names@) =~= before.push(name@));
    }
}

fn has_root(name: &str) -> (r: bool)
    ensures
        r == (part_start(name@, 0) < name@.len()),
{
    let chars = crate::strings::chars_of(name);
    let mut i: usize = 0;
    while i < chars.len()
        invariant
            i <= chars@.len(),
            chars@ == name@,
            part_start(chars@, i as int) == part_start(chars@, 0),
        decreases chars@.len() - i,
    {
        if !(chars[i] == '.' || chars[i] == ':') {
            return true;
        }
        i = i + 1;
    }
    false
}

/// What a configuration asks of the server.
pub fn settings(config: Config) -> (r: Settings)
    ensures
        r.platform == (match config.platform {
            Some(name) => platform_named(name@),
            None => None,
        }),
        texts(r.extra_globals@) == globals_of(config),
        match config.global_docs {
            Some(docs) => r.global_docs == docs,
            None => r.global_docs@.len() == 0,
        },
        r.warn_unhooked_macros == (config.warn_unhooked_macros == Some(true)),
{
    let platform = match &config.platform {
        Some(name) => platform_from_str(name),
        None => None,
    };
    let mut all: Vec<String> = Vec::new();
    assert(texts(all@) =~= Seq::<Seq<char>>::empty());
    if let Some(known) = &config.known_globals {
        let ghost ks = texts(known@);
        let mut i: usize = 0;
        while i < known.len()
            invariant
                i <= known@.len(),
                ks == texts(known@),
                texts(all@) == each_once(ks, i as int),
            decreases known@.len() - i,
        {
            add_global(&mut all, known[i].clone());
            i = i + 1;
        }
    }
    let ghost first = texts(all@);
    if let Some(docs) = &config.global_docs {
        let mut i: usize = 0;
        while i < docs.len()
            invariant
                i <= docs@.len(),
                texts(all@) == with_roots(first, docs@, i as int),
            decreases docs@.len() - i,
        {
            let key = docs.name_at(i);
            if has_root(key) {
                add_global(&mut all, root(key));
            }
            i = i + 1;
        }
    }
    Settings {
        platform,
        extra_globals: all,
        global_docs: match config.global_docs {
            Some(docs) => docs,
            None => NameMap::new(),
        },
        warn_unhooked_macros: match config.warn_unhooked_macros {
            Some(w) => w,
            None => false,
        },
    }
}

/// What happened to a file that the editor watches.
#[derive(Debug, Clone, Copy, PartialEq, Eq, Structural)]
pub enum FileChange {
    Created,
    Changed,
    Deleted,
    Other,
}

/// What to do about a watched file.
#[derive(Debug, Clone, Copy, PartialEq, Eq, Structural)]
pub enum WatchAction {
    /// Drop it from the require cache: an open file is managed by the editor, and
    /// those that depend on it pick up fresh exports at their next analysis.
    Invalidate,
    /// Read it from disk and analyze it.
    Reload,
    /// Forget it.
    Forget,
    Nothing,
}

/// What to do about a change of a watched file.
pub fn watch_action(is_open: bool, change: FileChange) -> (r: WatchAction)
    ensures
        r == (if is_open {
            WatchAction::Invalidate
        } else {
            match change {
                FileChange::Created => WatchAction::Reload,
                FileChange::Changed => WatchAction::Reload,
                FileChange::Deleted => WatchAction::Forget,
                FileChange::Other => WatchAction::Nothing,
            }
        }),
{
    if is_open {
        WatchAction::Invalidate
    } else {
        match change {
            FileChange::Created => WatchAction::Reload,
            FileChange::Changed => WatchAction::Reload,
            FileChange::Deleted => WatchAction::Forget,
            FileChange::Other => WatchAction::Nothing,
        }
    }
}

} // verus!
