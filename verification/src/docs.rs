//! Built-in documentation for the Lua standard library and Fennel special forms.
use vstd::prelude::*;

use crate::builtin_counts::{builtin_count, builtins_are_counted};
use crate::names::{
    has_name, index_of_first, names_once, value_after_insert, value_of, with_value, NameMap,
};
use crate::strings::{root, root_of, same};

verus! {

// ── Entries ─────────────────────────────────────────────────────────────────

#[derive(Debug, Clone)]
pub struct BuiltinDoc {
    pub signature: String,
    pub doc: String,
    pub kind: BuiltinKind,
}

#[derive(Debug, Clone, Copy, PartialEq, Eq, Structural)]
pub enum BuiltinKind {
    Function,
    Macro,
    SpecialForm,
    Value,
}

/// The model of a [`BuiltinDoc`].
#[verifier::ext_equal]
pub ghost struct BuiltinView {
    pub signature: Seq<char>,
    pub doc: Seq<char>,
    pub kind: BuiltinKind,
}

impl View for BuiltinDoc {
    type V = BuiltinView;

    open spec fn view(&self) -> BuiltinView {
        BuiltinView { signature: self.signature@, doc: self.doc@, kind: self.kind }
    }
}

impl BuiltinDoc {
    /// A copy of the entry.
    pub fn dup(&self) -> (r: BuiltinDoc)
        ensures
            r@ == self@,
    {
        BuiltinDoc { signature: self.signature.clone(), doc: self.doc.clone(), kind: self.kind }
    }
}

// ── Platform ────────────────────────────────────────────────────────────────

/// The Lua runtime / flavour to target. Determines which globals and libraries
/// are recognised as known so the LSP does not emit spurious unknown-identifier
/// warnings.
#[derive(Debug, Clone, Copy, PartialEq, Eq, Structural)]
pub enum Platform {
    /// Standard Lua 5.1. `unpack` is a global; no `utf8` / `bit32`.
    Lua51,
    /// Standard Lua 5.2. Adds `bit32`; `unpack` moved to `table.unpack`.
    Lua52,
    /// Standard Lua 5.3. Adds `utf8`; removes `bit32`; native bitwise ops.
    Lua53,
    /// Standard Lua 5.4 (default). Adds `warn`.
    Lua54,
    /// LuaJIT. Based on Lua 5.1 plus `ffi`, `jit`, and `bit`.
    LuaJIT,
    /// Luau (Roblox). Adds `task`, `script`, `game`, `workspace`.
    Luau,
}

impl Default for Platform {
    fn default() -> (r: Platform)
        ensures
            r == Platform::Lua54,
    {
        Platform::Lua54
    }
}

// ── The tables ──────────────────────────────────────────────────────────────

/// A name, its signature, its kind and its documentation.
pub type Row = (&'static str, &'static str, BuiltinKind, &'static str);

/// Entries present in every supported Lua flavour.
pub const COMMON: [Row; 116] = [
    // ── Fennel special forms ─────────────────────────────────────────────────
    ("fn", "(fn name? [params...] body...)", BuiltinKind::SpecialForm, "Define a function. If `name` is given, binds it locally."),
    ("lambda", "(lambda [params...] body...)", BuiltinKind::SpecialForm, "Define a function. Arguments are checked for nil at runtime."),
    ("λ", "(λ [params...] body...)", BuiltinKind::SpecialForm, "Alias for `lambda`."),
    ("local", "(local name value)", BuiltinKind::SpecialForm, "Introduce an immutable local binding."),
    ("var", "(var name value)", BuiltinKind::SpecialForm, "Introduce a mutable local binding (can be updated with `set`)."),
    ("global", "(global name value)", BuiltinKind::SpecialForm, "Introduce a global binding."),
    ("set", "(set name value)", BuiltinKind::SpecialForm, "Assign a new value to a `var` binding."),
    ("tset", "(tset table key value)", BuiltinKind::SpecialForm, "Set a field in a table: equivalent to `table[key] = value`."),
    ("let", "(let [name val ...] body...)", BuiltinKind::SpecialForm, "Sequential local bindings. Supports destructuring."),
    ("do", "(do body...)", BuiltinKind::SpecialForm, "Evaluate body forms in a new scope; return the last value."),
    ("if", "(if cond then else?)", BuiltinKind::SpecialForm, "Conditional. Multiple cond/then pairs are supported."),
    ("when", "(when cond body...)", BuiltinKind::SpecialForm, "Like `if` but without an else branch."),
    ("unless", "(unless cond body...)", BuiltinKind::SpecialForm, "Evaluate body when cond is falsy."),
    ("while", "(while cond body...)", BuiltinKind::SpecialForm, "Evaluate body in a loop while cond is truthy."),
    ("each", "(each [key val iter-expr] body...)", BuiltinKind::SpecialForm, "Iterate with `each` (like Lua's generic for)."),
    ("for", "(for [var start stop step?] body...)", BuiltinKind::SpecialForm, "Numeric for loop."),
    ("match", "(match value pattern body ...)", BuiltinKind::SpecialForm, "Pattern-match `value` against patterns."),
    ("case", "(case value pattern body ...)", BuiltinKind::SpecialForm, "Like `match` but patterns cannot rebind outer locals."),
    ("require", "(require :module)", BuiltinKind::SpecialForm, "Load and return a module."),
    ("values", "(values ...)", BuiltinKind::SpecialForm, "Return multiple values."),
    ("and", "(and ...)", BuiltinKind::SpecialForm, "Boolean and (short-circuit); returns last truthy value or first falsy."),
    ("or", "(or ...)", BuiltinKind::SpecialForm, "Boolean or (short-circuit); returns first truthy value or last value."),
    ("not", "(not x)", BuiltinKind::SpecialForm, "Boolean negation."),
    (".", "(. tbl key ...)", BuiltinKind::SpecialForm, "Table field access: `(. t :k)` → `t.k`."),
    ("..", "(.. s1 s2 ...)", BuiltinKind::SpecialForm, "String concatenation."),
    ("#", "(# t)", BuiltinKind::SpecialForm, "Length operator: `(# t)` → `#t`."),
    ("macro", "(macro name [params] body)", BuiltinKind::SpecialForm, "Define a compile-time macro."),
    ("macros", "(macros {name fn ...})", BuiltinKind::SpecialForm, "Define multiple macros at once."),
    ("import-macros", "(import-macros {name :local} :module)", BuiltinKind::SpecialForm, "Import macros from a module."),
    ("include", "(include :module)", BuiltinKind::SpecialForm, "Inline a module's compiled Lua source at compile time."),
    ("lua", "(lua code-string)", BuiltinKind::SpecialForm, "Emit raw Lua code."),
    ("pick-values", "(pick-values n ...)", BuiltinKind::SpecialForm, "Limit multiple return values to exactly n."),
    ("pick-args", "(pick-args n f)", BuiltinKind::SpecialForm, "Wrap f to accept exactly n arguments."),
    ("set-forcibly!", "(set-forcibly! name value)", BuiltinKind::SpecialForm, "Compiler-internal macro: forcibly set a binding (bypasses immutability)."),
    ("case-try", "(case-try val pat body ... catch pat body)", BuiltinKind::SpecialForm, "Like `match-try` but patterns don't rebind locals."),
    ("match-try", "(match-try val pat body ... catch pat body)", BuiltinKind::SpecialForm, "Chain pattern matches; jump to catch on mismatch."),
    ("with-open", "(with-open [name (io.open ...)] body...)", BuiltinKind::SpecialForm, "Open a resource and close it automatically when the scope exits."),
    ("collect", "(collect [key val iter] body...)", BuiltinKind::SpecialForm, "Build a table by collecting key-value pairs from iteration."),
    ("icollect", "(icollect [val iter] body...)", BuiltinKind::SpecialForm, "Build a sequential table from iteration."),
    ("accumulate", "(accumulate [acc init iter] body...)", BuiltinKind::SpecialForm, "Fold over iteration; like a left fold."),
    ("faccumulate", "(faccumulate [acc init i start stop step?] body...)", BuiltinKind::SpecialForm, "Numeric fold."),
    ("fcollect", "(fcollect [i start stop step? &into t?] body...)", BuiltinKind::SpecialForm, "Numeric collect: like `icollect` but with explicit start/stop/step."),
    ("&into", "&into", BuiltinKind::SpecialForm, "Modifier: accumulate results into an existing table."),
    ("&as", "&as", BuiltinKind::SpecialForm, "Modifier: bind the whole destructured value to a name."),
    ("&until", "&until", BuiltinKind::SpecialForm, "Modifier: stop iteration early when condition is true."),
    ("catch", "catch", BuiltinKind::SpecialForm, "Marker for catch clause in `case-try`/`match-try`."),
    ("where", "(where pattern guard)", BuiltinKind::SpecialForm, "Pattern guard in `match`/`case`."),
    ("_", "_", BuiltinKind::Value, "Discard pattern / ignored value."),
    // ── Fennel arithmetic / comparison operators ──────────────────────────────
    ("+", "(+ ...)", BuiltinKind::SpecialForm, "Addition."),
    ("-", "(- a b?)", BuiltinKind::SpecialForm, "Subtraction or negation."),
    ("*", "(* ...)", BuiltinKind::SpecialForm, "Multiplication."),
    ("/", "(/ a b)", BuiltinKind::SpecialForm, "Division."),
    ("//", "(// a b)", BuiltinKind::SpecialForm, "Integer (floor) division."),
    ("%", "(% a b)", BuiltinKind::SpecialForm, "Modulo."),
    ("^", "(^ a b)", BuiltinKind::SpecialForm, "Exponentiation."),
    ("<", "(< a b ...)", BuiltinKind::SpecialForm, "Less-than."),
    ("<=", "(<= a b ...)", BuiltinKind::SpecialForm, "Less-than-or-equal."),
    (">", "(> a b ...)", BuiltinKind::SpecialForm, "Greater-than."),
    (">=", "(>= a b ...)", BuiltinKind::SpecialForm, "Greater-than-or-equal."),
    ("=", "(= a b ...)", BuiltinKind::SpecialForm, "Equality."),
    ("not=", "(not= a b ...)", BuiltinKind::SpecialForm, "Inequality."),
    ("~=", "(~= a b)", BuiltinKind::SpecialForm, "Inequality (Lua-style)."),
    (":", "(: obj method args...)", BuiltinKind::SpecialForm, "Method call: `(: obj :method args)` → `obj:method(args)`."),
    ("?.", "(?. t key ...)", BuiltinKind::SpecialForm, "Nil-safe table access: returns nil if any intermediate is nil."),
    ("band", "(band a b)", BuiltinKind::SpecialForm, "Bitwise AND."),
    ("bor", "(bor a b)", BuiltinKind::SpecialForm, "Bitwise OR."),
    ("bxor", "(bxor a b)", BuiltinKind::SpecialForm, "Bitwise XOR."),
    ("bnot", "(bnot a)", BuiltinKind::SpecialForm, "Bitwise NOT."),
    ("lshift", "(lshift a n)", BuiltinKind::SpecialForm, "Left shift."),
    ("rshift", "(rshift a n)", BuiltinKind::SpecialForm, "Right shift."),
    // ── Fennel threading macros ───────────────────────────────────────────────
    ("->", "(-> val form ...)", BuiltinKind::Macro, "Thread `val` as first argument through each form."),
    ("->>", "(->> val form ...)", BuiltinKind::Macro, "Thread `val` as last argument through each form."),
    ("-?>", "(-?> val form ...)", BuiltinKind::Macro, "Nil-safe `->`: short-circuit on nil."),
    ("-?>>", "(-?>> val form ...)", BuiltinKind::Macro, "Nil-safe `->>`."),
    ("as->", "(as-> val name form ...)", BuiltinKind::Macro, "Thread `val` through forms, binding the intermediate result to `name` in each form."),
    ("doto", "(doto val form ...)", BuiltinKind::Macro, "Evaluate each form with `val` as first arg, then return `val`."),
    ("partial", "(partial f args...)", BuiltinKind::Macro, "Partial application: return a fn with the given args pre-filled."),
    // ── Core Lua globals (common to all versions) ─────────────────────────────
    ("print", "(print ...)", BuiltinKind::Function, "Print values to stdout, separated by tabs."),
    ("tostring", "(tostring x)", BuiltinKind::Function, "Convert `x` to a string."),
    ("tonumber", "(tonumber x base?)", BuiltinKind::Function, "Convert `x` to a number, optionally in `base`."),
    ("type", "(type x)", BuiltinKind::Function, "Return the Lua type of `x` as a string."),
    ("error", "(error msg level?)", BuiltinKind::Function, "Raise an error."),
    ("assert", "(assert v msg?)", BuiltinKind::Function, "Assert `v` is truthy; raise `msg` otherwise."),
    ("pcall", "(pcall f ...)", BuiltinKind::Function, "Call `f` in protected mode; returns `(true results...)` or `(false error)`."),
    ("xpcall", "(xpcall f handler ...)", BuiltinKind::Function, "Like `pcall` but calls `handler` on error."),
    ("ipairs", "(ipairs t)", BuiltinKind::Function, "Iterator for sequential table values."),
    ("pairs", "(pairs t)", BuiltinKind::Function, "Iterator for all table key-value pairs."),
    ("next", "(next t key?)", BuiltinKind::Function, "Return the next key-value pair after `key` in `t`."),
    ("select", "(select index ...)", BuiltinKind::Function, "Return all arguments after `index`, or their count."),
    ("setmetatable", "(setmetatable t mt)", BuiltinKind::Function, "Set the metatable of `t` to `mt`."),
    ("getmetatable", "(getmetatable t)", BuiltinKind::Function, "Return the metatable of `t`."),
    ("rawget", "(rawget t k)", BuiltinKind::Function, "Get `t[k]` bypassing metamethods."),
    ("rawset", "(rawset t k v)", BuiltinKind::Function, "Set `t[k] = v` bypassing metamethods."),
    ("rawequal", "(rawequal a b)", BuiltinKind::Function, "Compare `a` and `b` without metamethods."),
    ("rawlen", "(rawlen v)", BuiltinKind::Function, "Length of table or string without __len metamethod."),
    ("require", "(require modname)", BuiltinKind::Function, "Load module `modname`."),
    ("load", "(load chunk ...)", BuiltinKind::Function, "Load a Lua chunk."),
    ("loadstring", "(loadstring s name?)", BuiltinKind::Function, "Load a string as a Lua chunk (Lua 5.1 compat)."),
    ("dofile", "(dofile filename?)", BuiltinKind::Function, "Load and execute a Lua file."),
    ("loadfile", "(loadfile filename? ...)", BuiltinKind::Function, "Load a Lua file without executing it."),
    ("collectgarbage", "(collectgarbage opt? arg?)", BuiltinKind::Function, "Control the garbage collector."),
    ("length", "(length t)", BuiltinKind::Function, "Return the length of `t` (like `#t`)."),
    // ── Library roots (common) ────────────────────────────────────────────────
    ("string", "string", BuiltinKind::Value, "Lua string library."),
    ("table", "table", BuiltinKind::Value, "Lua table library."),
    ("math", "math", BuiltinKind::Value, "Lua math library."),
    ("io", "io", BuiltinKind::Value, "Lua I/O library."),
    ("os", "os", BuiltinKind::Value, "Lua operating system library."),
    ("coroutine", "coroutine", BuiltinKind::Value, "Lua coroutine library."),
    ("debug", "debug", BuiltinKind::Value, "Lua debug library."),
    ("package", "package", BuiltinKind::Value, "Lua package / module system."),
    // ── Universal globals ─────────────────────────────────────────────────────
    ("_G", "_G", BuiltinKind::Value, "Global environment table."),
    ("_VERSION", "_VERSION", BuiltinKind::Value, "Lua version string."),
    ("arg", "arg", BuiltinKind::Value, "Command-line arguments (when run as a script)."),
    ("_ENV", "_ENV", BuiltinKind::Value, "The current environment table."),
    ("fennel", "fennel", BuiltinKind::Value, "The Fennel compiler/runtime table."),
    ("___repl___", "___repl___", BuiltinKind::Value, "Fennel REPL state (internal)."),
];

/// What Lua 5.1 adds.
pub const LUA51: [Row; 1] = [
    // In Lua 5.1, `unpack` is a global (in 5.2+ it moved to `table.unpack`).
    ("unpack", "(unpack t i? j?)", BuiltinKind::Function, "Unpack table elements as multiple return values. (Lua 5.1; use `table.unpack` in 5.2+.)"),
];

/// What Lua 5.2 adds.
pub const LUA52: [Row; 1] = [
    ("bit32", "bit32", BuiltinKind::Value, "Lua 5.2 bitwise operations library."),
];

/// What Lua 5.3 and later add.
pub const LUA53: [Row; 1] = [
    ("utf8", "utf8", BuiltinKind::Value, "Lua 5.3+ UTF-8 library."),
];

/// What Lua 5.4 adds.
pub const LUA54: [Row; 1] = [
    ("warn", "(warn msg ...)", BuiltinKind::Function, "Emit a warning message (Lua 5.4+)."),
];

/// What LuaJIT adds to Lua 5.1.
pub const LUAJIT: [Row; 3] = [
    ("ffi", "ffi", BuiltinKind::Value, "LuaJIT FFI library for calling C functions."),
    ("jit", "jit", BuiltinKind::Value, "LuaJIT JIT-compiler control."),
    ("bit", "bit", BuiltinKind::Value, "LuaJIT bit-manipulation library."),
];

/// What Luau (Roblox) adds.
pub const LUAU: [Row; 4] = [
    ("task", "task", BuiltinKind::Value, "Roblox task scheduler."),
    ("script", "script", BuiltinKind::Value, "The Script instance containing this code."),
    ("game", "game", BuiltinKind::Value, "The root DataModel instance."),
    ("workspace", "workspace", BuiltinKind::Value, "The Workspace service."),
];

/// The entry that a row describes.
pub open spec fn row_view(row: Row) -> BuiltinView {
    BuiltinView { signature: row.1@, doc: row.3@, kind: row.2 }
}

/// A set after the first `k` rows of a table were entered; a later row with the
/// same name replaces an earlier one.
pub open spec fn with_rows(
    set: Seq<(Seq<char>, BuiltinView)>,
    rows: Seq<Row>,
    k: int,
) -> Seq<(Seq<char>, BuiltinView)>
    decreases k,
{
    if 0 < k <= rows.len() {
        with_value(with_rows(set, rows, k - 1), rows[k - 1].0@, row_view(rows[k - 1]))
    } else {
        set
    }
}

pub open spec fn with_table(set: Seq<(Seq<char>, BuiltinView)>, rows: Seq<Row>) -> Seq<
    (Seq<char>, BuiltinView),
> {
    with_rows(set, rows, rows.len() as int)
}

/// The built-in names of a platform.
pub open spec fn builtins_of(platform: Platform) -> Seq<(Seq<char>, BuiltinView)> {
    let common = with_table(Seq::empty(), COMMON@);
    match platform {
        Platform::Lua51 => with_table(common, LUA51@),
        Platform::Lua52 => with_table(common, LUA52@),
        Platform::Lua53 => with_table(common, LUA53@),
        Platform::Lua54 => with_table(with_table(common, LUA53@), LUA54@),
        Platform::LuaJIT => with_table(with_table(common, LUA51@), LUAJIT@),
        Platform::Luau => with_table(common, LUAU@),
    }
}

/// The entry of a name: its own, or else that of its root.
pub open spec fn builtin_of(set: Seq<(Seq<char>, BuiltinView)>, name: Seq<char>) -> Option<
    BuiltinView,
> {
    if has_name(set, name) {
        value_of(set, name)
    } else {
        value_of(set, root_of(name))
    }
}

// ── BuiltinSet ──────────────────────────────────────────────────────────────

/// The set of known built-in names for a particular platform, optionally
/// extended with library-specific definitions (e.g. LÖVE, Neovim, etc.).
pub struct BuiltinSet {
    map: NameMap<BuiltinDoc>,
}

impl View for BuiltinSet {
    type V = Seq<(Seq<char>, BuiltinView)>;

    closed spec fn view(&self) -> Seq<(Seq<char>, BuiltinView)> {
        self.map@
    }
}

fn add_rows(map: &mut NameMap<BuiltinDoc>, rows: &[Row])
    ensures
        final(map)@ == with_table(old(map)@, rows@),
{
    let mut i: usize = 0;
    while i < rows.len()
        invariant
            i <= rows@.len(),
            map@ == with_rows(old(map)@, rows@, i as int),
        decreases rows@.len() - i,
    {
        let row = rows[i];
        map.insert(
            row.0,
            BuiltinDoc { signature: row.1.to_owned(), doc: row.3.to_owned(), kind: row.2 },
        );
        i = i + 1;
    }
}

/// Entries present in every supported Lua flavour.
fn build_common_map() -> (r: NameMap<BuiltinDoc>)
    ensures
        r@ == with_table(Seq::empty(), COMMON@),
        r@.len() == 115,
{
    proof {
        builtins_are_counted(Platform::Lua54);
    }
    let mut map: NameMap<BuiltinDoc> = NameMap::new();
    add_rows(&mut map, &COMMON);
    map
}

impl BuiltinSet {
    /// Build the default builtin set for `platform`.
    pub fn for_platform(platform: Platform) -> (r: Self)
        ensures
            r@ == builtins_of(platform),
            r@.len() == builtin_count(platform),
    {
        proof {
            builtins_are_counted(platform);
        }
        let mut map = build_common_map();
        match platform {
            Platform::Lua51 => {
                add_rows(&mut map, &LUA51);
            },
            Platform::Lua52 => {
                add_rows(&mut map, &LUA52);
            },
            Platform::Lua53 => {
                add_rows(&mut map, &LUA53);
            },
            Platform::Lua54 => {
                add_rows(&mut map, &LUA53);
                add_rows(&mut map, &LUA54);
            },
            Platform::LuaJIT => {
                add_rows(&mut map, &LUA51);
                add_rows(&mut map, &LUAJIT);
            },
            Platform::Luau => {
                add_rows(&mut map, &LUAU);
            },
        }
        Self { map }
    }

    /// Extend this set with additional entries — e.g. a game-framework or
    /// editor API. Entries with the same name as existing ones overwrite them.
    pub fn with_extra(self, entries: Vec<(String, BuiltinDoc)>) -> (r: Self)
        ensures
            r@ == with_entries(self@, entries@, entries@.len() as int),
    {
        let mut map = self.map;
        let mut i: usize = 0;
        while i < entries.len()
            invariant
                i <= entries@.len(),
                map@ == with_entries(self@, entries@, i as int),
            decreases entries@.len() - i,
        {
            map.insert(&entries[i].0, entries[i].1.dup());
            i = i + 1;
        }
        Self { map }
    }

    /// Look up `name` in the set. Supports multisym: `io.open` resolves via
    /// the root `io`, and `obj:method` resolves via `obj`.
    pub fn get(&self, name: &str) -> (r: Option<&BuiltinDoc>)
        ensures
            match r {
                Some(d) => builtin_of(self@, name@) == Some(d@),
                None => builtin_of(self@, name@) is None,
            },
    {
        if let Some(doc) = self.map.get(name) {
            return Some(doc);
        }
        // Strip method/field suffix
        let root_name = root(name);
        self.map.get(&root_name)
    }

    /// Return `true` if `name` (or its multisym root) is a known builtin.
    pub fn is_known(&self, name: &str) -> (r: bool)
        ensures
            r == (builtin_of(self@, name@) is Some),
    {
        self.get(name).is_some()
    }

    /// All the entries, in the order in which their names were first entered: each
    /// name once, with the entry that `get` finds for it.
    pub fn iter(&self) -> (r: Vec<(&str, &BuiltinDoc)>)
        ensures
            r@.len() == self@.len(),
            forall|i: int|
                0 <= i < r@.len() ==> (#[trigger] r@[i]).0@ == self@[i].0 && r@[i].1@ == self@[i].1,
            forall|i: int, j: int|
                0 <= i < j < r@.len() ==> (#[trigger] r@[i]).0@ != (#[trigger] r@[j]).0@,
            forall|name: Seq<char>| #[trigger]
                has_name(self@, name) ==> exists|i: int|
                    0 <= i < r@.len() && (#[trigger] r@[i]).0@ == name,
            names_once(self@),
            forall|i: int|
                0 <= i < r@.len() ==> builtin_of(self@, (#[trigger] r@[i]).0@) == Some(r@[i].1@),
    {
        let mut out: Vec<(&str, &BuiltinDoc)> = Vec::new();
        let n = self.map.len();
        let mut i: usize = 0;
        while i < n
            invariant
                i <= n,
                n == self@.len(),
                out@.len() == i,
                forall|j: int|
                    0 <= j < i ==> (#[trigger] out@[j]).0@ == self@[j].0 && out@[j].1@
                        == self@[j].1,
            decreases n - i,
        {
            out.push((self.map.name_at(i), self.map.value_at(i)));
            i = i + 1;
        }
        assert forall|j: int| 0 <= j < out@.len() implies builtin_of(
            self@,
            (#[trigger] out@[j]).0@,
        ) == Some(out@[j].1@) by {
            entries_are_found(self@, j);
        }
        assert forall|i: int, j: int| 0 <= i < j < out@.len() implies (#[trigger] out@[i]).0@ != (
        #[trigger] out@[j]).0@ by {
            assert(self@[i].0 != self@[j].0);
        }
        assert forall|name: Seq<char>| #[trigger] has_name(self@, name) implies exists|i: int|
            0 <= i < out@.len() && (#[trigger] out@[i]).0@ == name by {
            index_of_first(self@, name);
            assert(out@[crate::names::index_of(self@, name)].0@ == name);
        }
        out
    }
}

/// A set after the first `k` of some entries were added.
pub open spec fn with_entries(
    set: Seq<(Seq<char>, BuiltinView)>,
    entries: Seq<(String, BuiltinDoc)>,
    k: int,
) -> Seq<(Seq<char>, BuiltinView)>
    decreases k,
{
    if 0 < k <= entries.len() {
        with_value(with_entries(set, entries, k - 1), entries[k - 1].0@, entries[k - 1].1@)
    } else {
        set
    }
}

/// Every entry of a set is found by its name.
pub proof fn entries_are_found(set: Seq<(Seq<char>, BuiltinView)>, i: int)
    requires
        names_once(set),
        0 <= i < set.len(),
    ensures
        builtin_of(set, set[i].0) == Some(set[i].1),
{
    index_of_first(set, set[i].0);
    let k = crate::names::index_of(set, set[i].0);
    assert(k == i) by {
        if k < i {
            assert(set[k].0 != set[i].0);
        }
    }
}

/// No name occurs twice among those of a platform.
pub proof fn builtins_have_names_once(platform: Platform)
    ensures
        names_once(builtins_of(platform)),
{
    let none = Seq::<(Seq<char>, BuiltinView)>::empty();
    let common = with_table(none, COMMON@);
    rows_have_names_once(none, COMMON@, COMMON@.len() as int);
    rows_have_names_once(common, LUA51@, LUA51@.len() as int);
    rows_have_names_once(common, LUA52@, LUA52@.len() as int);
    rows_have_names_once(common, LUA53@, LUA53@.len() as int);
    rows_have_names_once(common, LUAU@, LUAU@.len() as int);
    rows_have_names_once(with_table(common, LUA53@), LUA54@, LUA54@.len() as int);
    rows_have_names_once(with_table(common, LUA51@), LUAJIT@, LUAJIT@.len() as int);
}

proof fn rows_have_names_once(set: Seq<(Seq<char>, BuiltinView)>, rows: Seq<Row>, k: int)
    requires
        names_once(set),
        0 <= k <= rows.len(),
    ensures
        names_once(with_rows(set, rows, k)),
    decreases k,
{
    if k > 0 {
        rows_have_names_once(set, rows, k - 1);
        let before = with_rows(set, rows, k - 1);
        value_after_insert(before, rows[k - 1].0@, row_view(rows[k - 1]), rows[k - 1].0@);
    }
}

/// An added entry overrides the one that was there, for its name and for the
/// multisyms that have no entry of their own and whose root it is; the entries
/// of other names stay.
pub proof fn extra_overrides(
    set: Seq<(Seq<char>, BuiltinView)>,
    name: Seq<char>,
    doc: BuiltinView,
    asked: Seq<char>,
)
    ensures
        builtin_of(with_value(set, name, doc), name) == Some(doc),
        !has_name(set, asked) && root_of(asked) == name ==> builtin_of(
            with_value(set, name, doc),
            asked,
        ) == Some(doc),
        asked != name && root_of(asked) != name ==> builtin_of(with_value(set, name, doc), asked)
            == builtin_of(set, asked),
{
    value_after_insert(set, name, doc, name);
    value_after_insert(set, name, doc, asked);
    value_after_insert(set, name, doc, root_of(asked));
}

/// Every name that all platforms share is known on each of them.
pub proof fn common_names_are_known(platform: Platform, i: int)
    requires
        0 <= i < COMMON@.len(),
    ensures
        has_name(builtins_of(platform), COMMON@[i].0@),
{
    let name = COMMON@[i].0@;
    let common = with_table(Seq::empty(), COMMON@);
    rows_are_entered(Seq::empty(), COMMON@, COMMON@.len() as int, i);
    rows_keep_names(common, LUA51@, LUA51@.len() as int, name);
    rows_keep_names(common, LUA52@, LUA52@.len() as int, name);
    rows_keep_names(common, LUA53@, LUA53@.len() as int, name);
    rows_keep_names(common, LUAU@, LUAU@.len() as int, name);
    rows_keep_names(with_table(common, LUA53@), LUA54@, LUA54@.len() as int, name);
    rows_keep_names(with_table(common, LUA51@), LUAJIT@, LUAJIT@.len() as int, name);
}

proof fn rows_keep_names(
    set: Seq<(Seq<char>, BuiltinView)>,
    rows: Seq<Row>,
    k: int,
    name: Seq<char>,
)
    requires
        has_name(set, name),
        0 <= k <= rows.len(),
    ensures
        has_name(with_rows(set, rows, k), name),
    decreases k,
{
    if k > 0 {
        rows_keep_names(set, rows, k - 1, name);
        value_after_insert(
            with_rows(set, rows, k - 1),
            rows[k - 1].0@,
            row_view(rows[k - 1]),
            name,
        );
    }
}

pub(crate) proof fn rows_are_entered(set: Seq<(Seq<char>, BuiltinView)>, rows: Seq<Row>, k: int, i: int)
    requires
        0 <= i < k <= rows.len(),
    ensures
        has_name(with_rows(set, rows, k), rows[i].0@),
    decreases k,
{
    let before = with_rows(set, rows, k - 1);
    value_after_insert(before, rows[k - 1].0@, row_view(rows[k - 1]), rows[i].0@);
    if i < k - 1 {
        rows_are_entered(set, rows, k - 1, i);
    }
}

// ── The default set (Lua 5.4) ───────────────────────────────────────────────

/// The `Lua54` builtin set.
pub fn default_set() -> (r: BuiltinSet)
    ensures
        r@ == builtins_of(Platform::Lua54),
{
    BuiltinSet::for_platform(Platform::Lua54)
}

/// The entry of a name in the default set.
pub open spec fn default_builtin(name: Seq<char>) -> Option<BuiltinView> {
    builtin_of(builtins_of(Platform::Lua54), name)
}

/// A look-up in the default set finds what a look-up in a set for Lua 5.4 finds.
pub proof fn default_is_lua54(set: BuiltinSet, name: Seq<char>)
    requires
        set@ == builtins_of(Platform::Lua54),
    ensures
        default_builtin(name) == builtin_of(set@, name),
{
}

/// Look up `name` in the default (Lua 5.4) builtin set.
pub fn get(name: &str) -> (r: Option<BuiltinDoc>)
    ensures
        match r {
            Some(d) => default_builtin(name@) == Some(d@),
            None => default_builtin(name@) is None,
        },
{
    match default_set().get(name) {
        Some(d) => Some(d.dup()),
        None => None,
    }
}

} // verus!
