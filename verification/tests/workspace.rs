use std::sync::Arc;

use fennel_ls::docs::{BuiltinDoc, BuiltinKind, BuiltinSet, Platform};
use fennel_ls::names::NameMap;
use fennel_ls::workspace::{
    require_candidates, required_modules, resolve_require_path, Found, ModuleSource, Workspace,
};

/// The files of a project, by their paths under its root.
struct Dir(Vec<(&'static str, &'static str)>);

impl Dir {
    fn new() -> Dir {
        Dir(Vec::new())
    }

    fn write(&mut self, path: &'static str, text: &'static str) {
        self.0.push((path, text));
    }

    fn uri(&self, path: &str) -> String {
        format!("file:///project/{path}")
    }

    fn text(&self, path: &str) -> Option<String> {
        self.0.iter().find(|(p, _)| *p == path).map(|(_, t)| t.to_string())
    }

    fn found(&self, path: &str) -> Found {
        Found {
            path: format!("/project/{path}"),
            uri: self.uri(path),
            lua: path.ends_with(".lua"),
            text: self.text(path),
        }
    }

    /// The file that a module resolves to.
    fn resolve(&self, module: &str) -> Option<String> {
        let present = require_candidates(module).iter().map(|c| self.text(c).is_some()).collect();
        resolve_require_path(module, &present)
    }

    /// What the modules of a text resolve to.
    fn modules_of(&self, text: &str) -> NameMap<Found> {
        let mut disk = NameMap::new();
        for module in required_modules(text, &Default::default()) {
            if let Some(path) = self.resolve(&module) {
                disk.insert(&module, self.found(&path));
            }
        }
        disk
    }
}

// ── Default platform (Lua 5.4) ────────────────────────────────────────────

#[test]
fn default_workspace_knows_lua54_builtins() {
    let mut ws = Workspace::new();
    assert!(ws.builtins().is_known("print"));
    assert!(ws.builtins().is_known("pairs"));
    assert!(ws.builtins().is_known("io.open"),  "multisym via io root");
    assert!(ws.builtins().is_known("warn"),      "Lua 5.4 specific");
    assert!(ws.builtins().is_known("utf8"),      "Lua 5.3+ included in 5.4");
}

#[test]
fn default_workspace_does_not_know_lua51_globals() {
    let mut ws = Workspace::new();
    // `unpack` is a bare global only in Lua 5.1; in 5.4 it lives in table.unpack
    assert!(!ws.builtins().is_known("unpack"), "unpack is Lua5.1-only");
}

#[test]
fn default_workspace_does_not_know_luajit_globals() {
    let mut ws = Workspace::new();
    assert!(!ws.builtins().is_known("ffi"),  "ffi is LuaJIT-only");
    assert!(!ws.builtins().is_known("jit"),  "jit is LuaJIT-only");
    assert!(!ws.builtins().is_known("bit"),  "bit is LuaJIT-only");
}

// ── configure_platform ────────────────────────────────────────────────────

#[test]
fn configure_platform_lua51_has_unpack() {
    let mut ws = Workspace::new();
    ws.configure_platform(Platform::Lua51);
    assert!(ws.builtins().is_known("unpack"), "unpack global in Lua5.1");
    assert!(!ws.builtins().is_known("warn"),  "warn is Lua5.4-only");
}

#[test]
fn configure_platform_luajit_has_ffi() {
    let mut ws = Workspace::new();
    ws.configure_platform(Platform::LuaJIT);
    assert!(ws.builtins().is_known("ffi"));
    assert!(ws.builtins().is_known("jit"));
    assert!(ws.builtins().is_known("bit"));
}

// ── with_builtins: Lua 5.1 ────────────────────────────────────────────────

#[test]
fn with_builtins_lua51_has_unpack() {
    let mut ws = Workspace::new().with_builtins(BuiltinSet::for_platform(Platform::Lua51));
    assert!(ws.builtins().is_known("unpack"), "unpack global in Lua5.1");
    assert!(!ws.builtins().is_known("warn"),  "warn is Lua5.4-only");
}

// ── with_builtins: LuaJIT ────────────────────────────────────────────────

#[test]
fn with_builtins_luajit_has_ffi_and_unpack() {
    let mut ws = Workspace::new().with_builtins(BuiltinSet::for_platform(Platform::LuaJIT));
    assert!(ws.builtins().is_known("ffi"),    "LuaJIT has ffi");
    assert!(ws.builtins().is_known("jit"),    "LuaJIT has jit");
    assert!(ws.builtins().is_known("bit"),    "LuaJIT has bit");
    assert!(ws.builtins().is_known("unpack"), "LuaJIT inherits Lua5.1 unpack");
}

// ── with_builtins: custom extras ─────────────────────────────────────────

#[test]
fn with_builtins_custom_extras_visible() {
    let mut ws = Workspace::new().with_builtins(
        BuiltinSet::for_platform(Platform::Lua54).with_extra(vec![(
            "love".to_string(),
            BuiltinDoc { signature: "love".into(), doc: "LÖVE".into(), kind: BuiltinKind::Value },
        )]),
    );
    assert!(ws.builtins().is_known("love"),          "custom root");
    assert!(ws.builtins().is_known("love.graphics"), "custom multisym via root");
    assert!(ws.builtins().is_known("print"),         "built-ins still present");
}

// ── with_builtins replaces, not merges ────────────────────────────────────

#[test]
fn with_builtins_platform_switch_replaces_previous() {
    // After switching to Lua51, Lua54-only entries should NOT be present.
    let mut ws = Workspace::new().with_builtins(BuiltinSet::for_platform(Platform::Lua51));
    assert!(!ws.builtins().is_known("warn"),   "Lua54 warn gone after switch to Lua51");
    assert!(!ws.builtins().is_known("bit32"),  "Lua52 bit32 not in Lua51");
    // But shared builtins must still be there
    assert!(ws.builtins().is_known("print"));
    assert!(ws.builtins().is_known("unpack"));
}

// ── resolve_require_path ──────────────────────────────────────────────────

#[test]
fn resolve_require_path_direct_fnl() {
    let mut dir = Dir::new();
    dir.write("utils.fnl", "");
    let path = dir.resolve("utils").unwrap();
    assert_eq!(path, "utils.fnl");
}

#[test]
fn resolve_require_path_init_fnl() {
    let mut dir = Dir::new();
    dir.write("utils/init.fnl", "");
    let path = dir.resolve("utils").unwrap();
    assert_eq!(path, "utils/init.fnl");
}

#[test]
fn resolve_require_path_dotted_module() {
    let mut dir = Dir::new();
    dir.write("my/mod.fnl", "");
    let path = dir.resolve("my.mod").unwrap();
    assert_eq!(path, "my/mod.fnl");
}

#[test]
fn resolve_require_path_missing_returns_none() {
    let mut dir = Dir::new();
    assert!(dir.resolve("nonexistent").is_none());
}

// ── load_module ───────────────────────────────────────────────────────────

#[test]
fn load_module_reads_top_level_defs() {
    let mut dir = Dir::new();
    let fnl_path = "utils.fnl";
    dir.write(fnl_path, "(fn helper [x y] x)");
    let mut ws = Workspace::new();
    let exports = ws.load_module(&dir.found(fnl_path)).unwrap();
    assert!(exports.defs.contains_key("helper"), "helper should be a top-level def");
    let helper = exports.defs.get("helper").unwrap();
    assert_eq!(helper.params, Some(vec!["x".to_string(), "y".to_string()]));
}

#[test]
fn load_module_caches_result() {
    let mut dir = Dir::new();
    let fnl_path = "mod.fnl";
    dir.write(fnl_path, "(local x 1)");
    let mut ws = Workspace::new();
    let e1 = ws.load_module(&dir.found(fnl_path)).unwrap();
    let e2 = ws.load_module(&dir.found(fnl_path)).unwrap();
    assert!(Arc::ptr_eq(&e1, &e2), "second call should return cached Arc");
}

#[test]
fn update_resolves_require_bindings() {
    let mut dir = Dir::new();
    dir.write("utils.fnl", "(fn greet [name] name)");

    let mut ws = Workspace::new();
    let uri = "file:///test.fnl";
    let text = "(local utils (require :utils))\n(utils.greet \"world\")";
    ws.update(uri, None, text.to_string(), 1, &Default::default(), &dir.modules_of(text));

    let has_module = ws.with_file(uri, |f| f.modules.contains_key("utils"));
    assert_eq!(has_module, Some(true));
}

#[test]
fn update_without_root_no_modules() {
    let mut ws = Workspace::new();
    let uri = "file:///test.fnl";
    ws.update(uri, None, "(local x (require :utils))".to_string(), 1, &Default::default(), &NameMap::new());
    let module_count = ws.with_file(uri, |f| f.modules.len());
    assert_eq!(module_count, Some(0));
}

// ── Lua module loading ────────────────────────────────────────────────────

#[test]
fn resolve_require_path_lua_fallback() {
    let mut dir = Dir::new();
    dir.write("api.lua", "");
    let path = dir.resolve("api").unwrap();
    assert_eq!(path, "api.lua");
}

#[test]
fn resolve_require_path_fnl_beats_lua() {
    let mut dir = Dir::new();
    dir.write("api.fnl", "");
    dir.write("api.lua", "");
    let path = dir.resolve("api").unwrap();
    assert_eq!(path, "api.fnl", ".fnl should take priority over .lua");
}

#[test]
fn load_lua_module_exposes_top_level_defs() {
    let mut dir = Dir::new();
    dir.write("api.lua", "local function greet(name) return name end");
    let mut ws = Workspace::new();
    let exports = ws.load_module(&dir.found("api.lua")).unwrap();
    assert!(exports.defs.contains_key("greet"), "greet should be a top-level def");
    assert!(matches!(exports.source, ModuleSource::Lua { .. }), "source should be Lua");
}

#[test]
fn load_lua_module_source_map_points_to_lua_line() {
    let mut dir = Dir::new();
    // line 1: local x = 1
    // line 2: local function greet(n) return n end
    dir.write("api.lua", "local x = 1\nlocal function greet(n) return n end");
    let mut ws = Workspace::new();
    let exports = ws.load_module(&dir.found("api.lua")).unwrap();
    let def = exports.defs.get("greet").unwrap();
    let loc = exports.location_for_def(def);
    // greet is on Lua line 2 (1-indexed) → LSP line 1 (0-indexed)
    assert_eq!(loc.range.start.line, 1, "goto-def should land on Lua line 2 (LSP line 1)");
}

#[test]
fn update_invalidates_require_cache() {
    let mut dir = Dir::new();
    let fnl_path = "lib.fnl";
    dir.write(fnl_path, "(fn old [] nil)");

    let mut ws = Workspace::new();
    // Populate cache
    ws.load_module(&dir.found(fnl_path)).unwrap();
    let found = dir.found(fnl_path);
    assert!(!ws.needs_disk(&found.uri, &found.path));

    // Update the file via the LSP — cache should be invalidated
    let found = dir.found(fnl_path);
    let none = NameMap::new();
    ws.update(&found.uri, Some(&found.path), "(fn new [] nil)".to_string(), 1, &Default::default(), &none);
    ws.remove(&found.uri);
    assert!(ws.needs_disk(&found.uri, &found.path), "cache should be cleared on update");
}

// ── ModuleSource correctness ──────────────────────────────────────────────

#[test]
fn fnl_module_has_fennel_source() {
    let mut dir = Dir::new();
    dir.write("lib.fnl", "(fn foo [] nil)");
    let mut ws = Workspace::new();
    let exports = ws.load_module(&dir.found("lib.fnl")).unwrap();
    assert!(matches!(exports.source, ModuleSource::Fennel), "source should be Fennel");
}

#[test]
fn lua_module_has_lua_source_with_map() {
    let mut dir = Dir::new();
    dir.write("lib.lua", "local function f() end");
    let mut ws = Workspace::new();
    let exports = ws.load_module(&dir.found("lib.lua")).unwrap();
    assert!(
        matches!(exports.source, ModuleSource::Lua { .. }),
        "source should be Lua with a source map"
    );
}

#[test]
fn location_for_def_fennel_uses_direct_span() {
    let mut dir = Dir::new();
    // `greet` definition starts at a known byte offset — span→range should
    // point directly to that position without any source-map remapping.
    dir.write("util.fnl", "(fn greet [n] n)");
    let mut ws = Workspace::new();
    let exports = ws.load_module(&dir.found("util.fnl")).unwrap();
    let def = exports.defs.get("greet").unwrap();
    let loc = exports.location_for_def(def);
    // `greet` is the first token after `fn` at col 4 on line 0
    assert_eq!(loc.range.start.line, 0);
    assert_eq!(loc.range.start.character, 4, "greet starts at col 4 in '(fn greet [n] n)'");
}

// ── require chain: Fennel file requiring a Lua module ─────────────────────

#[test]
fn update_resolves_lua_require_binding() {
    let mut dir = Dir::new();
    dir.write("api.lua", "local function helper(x) return x end");

    let mut ws = Workspace::new();
    let uri = "file:///consumer.fnl";
    let text = "(local api (require :api))\n(api.helper 1)";
    ws.update(uri, None, text.to_string(), 1, &Default::default(), &dir.modules_of(text));

    let module_found = ws.with_file(uri, |f| f.modules.contains_key("api"));
    assert_eq!(module_found, Some(true), "api module should be resolved");

    let def_found = ws
        .with_file(uri, |f| {
            f.modules.get("api").map_or(false, |m| m.defs.contains_key("helper"))
        })
        .unwrap_or(false);
    assert!(def_found, "helper should be a def in the resolved Lua module");
}

#[test]
fn lua_module_goto_def_remaps_to_lua_line() {
    let mut dir = Dir::new();
    // Two functions: `f` on line 1, `g` on line 5 (after a blank line).
    dir.write("lib.lua", "local function f()\nend\n\n\nlocal function g()\nend");

    let mut ws = Workspace::new();
    let exports = ws.load_module(&dir.found("lib.lua")).unwrap();

    let f_loc = exports.location_for_def(exports.defs.get("f").unwrap());
    let g_loc = exports.location_for_def(exports.defs.get("g").unwrap());

    assert_eq!(f_loc.range.start.line, 0, "f is on Lua line 1 → LSP line 0");
    assert_eq!(g_loc.range.start.line, 4, "g is on Lua line 5 → LSP line 4");
}

#[test]
fn lua_module_cached_as_lua_source() {
    let mut dir = Dir::new();
    let path = "cached.lua";
    dir.write(path, "local function x() end");

    let mut ws = Workspace::new();
    let e1 = ws.load_module(&dir.found(path)).unwrap();
    let e2 = ws.load_module(&dir.found(path)).unwrap();

    assert!(Arc::ptr_eq(&e1, &e2), "second load should return the cached Arc");
    assert!(matches!(e2.source, ModuleSource::Lua { .. }));
}

#[test]
fn all_defs_includes_lua_module_defs() {
    let mut dir = Dir::new();
    let path = "mylib.lua";
    dir.write(path, "local function exported_fn() end");

    let mut ws = Workspace::new();
    // Populate the require cache
    ws.load_module(&dir.found(path)).unwrap();

    let defs = ws.all_defs("exported_fn");
    assert!(!defs.is_empty(), "all_defs should find Lua module defs in the require cache");
    assert!(defs.iter().any(|(_, _, d)| d.name == "exported_fn"));
}

// ── nested require: Fennel → Fennel → Lua ────────────────────────────────

#[test]
fn nested_require_fnl_then_lua() {
    let mut dir = Dir::new();

    // lua-lib.lua: the Lua leaf module
    dir.write("lua-lib.lua", "local function compute(x) return x * 2 end");

    // middle.fnl: Fennel wrapper that requires lua-lib
    dir.write("middle.fnl", "(local lib (require :lua-lib))\n(fn wrap [x] (lib.compute x))");

    let mut ws = Workspace::new();

    // Open middle.fnl — it should resolve lua-lib as a Lua module
    let middle_uri = "file:///middle.fnl";
    let text = dir.text("middle.fnl").unwrap();
    let disk = dir.modules_of(&text);
    ws.update(middle_uri, None, text, 1, &Default::default(), &disk);

    let lua_module_resolved = ws
        .with_file(middle_uri, |f| {
            f.modules.get("lib").map_or(false, |m| matches!(m.source, ModuleSource::Lua { .. }))
        })
        .unwrap_or(false);
    assert!(lua_module_resolved, "middle.fnl should resolve lua-lib.lua as a Lua module");

    // The Lua module's `compute` def should be reachable for goto-def
    let compute_found = ws
        .with_file(middle_uri, |f| {
            f.modules.get("lib").map_or(false, |m| m.defs.contains_key("compute"))
        })
        .unwrap_or(false);
    assert!(compute_found, "compute should be findable in lib module");

    // goto-def on lib.compute should remap to Lua line 1 (LSP line 0)
    let lua_line = ws.with_file(middle_uri, |f| {
        let lib = f.modules.get("lib")?;
        let def = lib.defs.get("compute")?;
        Some(lib.location_for_def(def).range.start.line)
    });
    assert_eq!(lua_line, Some(Some(0)), "compute is on Lua line 1 → LSP line 0");
}
