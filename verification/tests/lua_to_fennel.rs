use fennel_ls::lua_to_fennel::transpile;

fn fnl(lua: &str) -> String {
    transpile(lua).expect("transpile failed").fennel.trim().to_string()
}

#[test]
fn test_local() {
    assert_eq!(fnl("local x = 1"), "(local x 1)");
}

#[test]
fn test_multi_local() {
    assert_eq!(fnl("local a, b = 1, 2"), "(local [a b] (values 1 2))");
}

#[test]
fn test_function() {
    assert_eq!(fnl("local function f(x) return x end"), "(fn f [x] x)");
}

#[test]
fn test_method_call() {
    assert_eq!(fnl("obj:method(1, 2)"), "(: obj :method 1 2)");
}

#[test]
fn test_field_call() {
    assert_eq!(fnl("tbl.fn(x)"), "(tbl.fn x)");
}

#[test]
fn test_if_else() {
    assert_eq!(fnl("if x then y() else z() end"), "(if x (y) (z))");
}

#[test]
fn test_when() {
    assert_eq!(fnl("if x then y() end"), "(when x (y))");
}

#[test]
fn test_for() {
    assert_eq!(fnl("for i = 1, 10 do end"), "(for [i 1 10] )");
}

#[test]
fn test_generic_for() {
    assert_eq!(fnl("for k, v in pairs(t) do end"), "(each [k v (pairs t)] )");
}

#[test]
fn test_table_seq() {
    assert_eq!(fnl("local t = {1, 2, 3}"), "(local t [1 2 3])");
}

#[test]
fn test_table_kv() {
    assert_eq!(fnl("local t = {a = 1}"), "(local t {:a 1})");
}

#[test]
fn test_binop() {
    assert_eq!(fnl("local x = a + b"), "(local x (+ a b))");
}

#[test]
fn test_eq() {
    assert_eq!(fnl("local x = a == b"), "(local x (= a b))");
}

#[test]
fn test_source_map() {
    let out = transpile("local x = 1\nlocal y = 2").unwrap();
    assert_eq!(out.source_map[0], 1);
    assert_eq!(out.source_map[1], 2);
}

// ── operators ─────────────────────────────────────────────────────────────

#[test]
fn test_not_equal() {
    assert_eq!(fnl("local x = a ~= b"), "(local x (not= a b))");
}

#[test]
fn test_concat() {
    // `..` is right-associative in Lua: a..b..c = a..(b..c)
    assert_eq!(fnl(r#"local s = "hello" .. " " .. "world""#),
               r#"(local s (.. "hello" (.. " " "world")))"#);
}

#[test]
fn test_unary_not() {
    assert_eq!(fnl("local x = not a"), "(local x (not a))");
}

#[test]
fn test_unary_length() {
    assert_eq!(fnl("local n = #t"), "(local n (# t))");
}

#[test]
fn test_unary_negate() {
    assert_eq!(fnl("local x = -a"), "(local x (- a))");
}

#[test]
fn test_and_or() {
    assert_eq!(fnl("local x = a and b or c"), "(local x (or (and a b) c))");
}

#[test]
fn test_comparison_chain() {
    assert_eq!(fnl("local ok = x >= 0"), "(local ok (>= x 0))");
}

// ── control flow ──────────────────────────────────────────────────────────

#[test]
fn test_while() {
    assert_eq!(fnl("while x > 0 do x = x - 1 end"),
               "(while (> x 0) (set x (- x 1)))");
}

#[test]
fn test_repeat_until() {
    assert_eq!(fnl("repeat x = x + 1 until x >= 10"),
               "(while true (set x (+ x 1)) (when (>= x 10) (lua \"break\")))");
}

#[test]
fn test_numeric_for_with_step() {
    assert_eq!(fnl("for i = 0, 100, 10 do end"), "(for [i 0 100 10] )");
}

#[test]
fn test_if_elseif_else() {
    assert_eq!(
        fnl("if a then x() elseif b then y() else z() end"),
        "(if a (x) b (y) (z))"
    );
}

#[test]
fn test_if_elseif_no_else() {
    assert_eq!(
        fnl("if a then x() elseif b then y() end"),
        "(if a (x) b (y))"
    );
}

#[test]
fn test_do_block() {
    assert_eq!(fnl("do local x = 1 end"), "(do (local x 1))");
}

#[test]
fn test_break() {
    assert_eq!(fnl("while true do break end"), r#"(while true (lua "break"))"#);
}

// ── calls ─────────────────────────────────────────────────────────────────

#[test]
fn test_nested_call() {
    assert_eq!(fnl("foo(bar(x))"), "(foo (bar x))");
}

#[test]
fn test_chained_method_calls() {
    assert_eq!(fnl("obj:a():b(1)"), "(: (: obj :a) :b 1)");
}

#[test]
fn test_field_index_call() {
    assert_eq!(fnl("tbl.sub.fn(x)"), "(tbl.sub.fn x)");
}

#[test]
fn test_bracket_index() {
    assert_eq!(fnl("local v = t[k]"), "(local v (. t k))");
}

#[test]
fn test_method_no_args() {
    assert_eq!(fnl("obj:reset()"), "(: obj :reset)");
}

// ── functions ─────────────────────────────────────────────────────────────

#[test]
fn test_global_function() {
    assert_eq!(fnl("function greet(name) return name end"), "(fn greet [name] name)");
}

#[test]
fn test_vararg_function() {
    assert_eq!(fnl("function f(...) return ... end"), "(fn f [...] ...)");
}

#[test]
fn test_anonymous_function_assigned() {
    assert_eq!(fnl("local f = function(x) return x end"), "(local f (fn [x] x))");
}

#[test]
fn test_empty_function() {
    assert_eq!(fnl("local function noop() end"), "(fn noop [] )");
}

#[test]
fn test_multi_return() {
    assert_eq!(fnl("local function f() return 1, 2 end"), "(fn f [] (values 1 2))");
}

#[test]
fn test_table_method() {
    assert_eq!(fnl("function M.foo(x) return x end"), "(fn M.foo [x] x)");
}

// ── tables ────────────────────────────────────────────────────────────────

#[test]
fn test_empty_table() {
    assert_eq!(fnl("local t = {}"), "(local t {})");
}

#[test]
fn test_table_mixed() {
    // Mixed table: has both keyed and unkeyed fields → emitted as {:k v} form
    // (we group all fields together since Fennel doesn't allow mixed inline)
    let out = fnl("local t = {a = 1, 2}");
    assert!(out.starts_with("(local t {"), "got: {out}");
}

#[test]
fn test_nested_table() {
    assert_eq!(fnl("local t = {inner = {1, 2}}"), "(local t {:inner [1 2]})");
}

// ── set / assignment ──────────────────────────────────────────────────────

#[test]
fn test_global_assignment() {
    assert_eq!(fnl("x = 42"), "(set x 42)");
}

#[test]
fn test_field_assignment() {
    assert_eq!(fnl("tbl.x = 1"), "(set tbl.x 1)");
}

#[test]
fn test_multi_assign() {
    assert_eq!(fnl("a, b = 1, 2"), "(set [a b] (values 1 2))");
}

// ── source map ────────────────────────────────────────────────────────────

#[test]
fn test_source_map_skips_blank_lines() {
    // Blank lines don't produce Fennel output, so the second function maps
    // to its actual Lua line (5), not the line after the first function (2).
    let lua = "local function f()\nend\n\n\nlocal function g()\nend";
    let out = transpile(lua).unwrap();
    assert_eq!(out.source_map[0], 1, "f is on Lua line 1");
    assert_eq!(out.source_map[1], 5, "g is on Lua line 5");
}

#[test]
fn test_source_map_three_statements() {
    let lua = "local a = 1\nlocal b = 2\nlocal c = 3";
    let out = transpile(lua).unwrap();
    assert_eq!(out.source_map.len(), 3);
    assert_eq!(out.source_map[0], 1);
    assert_eq!(out.source_map[1], 2);
    assert_eq!(out.source_map[2], 3);
}

#[test]
fn test_source_map_fn_body_not_emitted_at_top_level() {
    // Statements inside a function body are inlined, not top-level forms.
    // The top-level source map should only have one entry (the function itself).
    let lua = "local function f()\n  local x = 1\n  return x\nend";
    let out = transpile(lua).unwrap();
    assert_eq!(out.source_map.len(), 1, "only the function declaration is top-level");
    assert_eq!(out.source_map[0], 1);
}

// ── error handling ────────────────────────────────────────────────────────

#[test]
fn test_invalid_lua_returns_error() {
    let result = transpile("local x = @@invalid@@");
    assert!(result.is_err(), "invalid Lua should return Err");
}

#[test]
fn test_empty_input() {
    let out = transpile("").unwrap();
    assert_eq!(out.fennel.trim(), "");
    assert!(out.source_map.is_empty());
}

// ── integration: real-world-ish patterns ──────────────────────────────────

#[test]
fn test_module_pattern() {
    let lua = "\
local function add(a, b)
  return a + b
end
local function greet(name)
  return \"Hello, \" .. name
end";
    let out = transpile(lua).unwrap();
    assert!(out.fennel.contains("(fn add [a b]"), "add function present");
    assert!(out.fennel.contains("(fn greet [name]"), "greet function present");
    // Source map: add on line 1, greet on line 4
    assert_eq!(out.source_map[0], 1);
    assert_eq!(out.source_map[1], 4);
}

#[test]
fn test_oop_method_definitions() {
    let lua = "function Obj:new(x)\n  return x\nend";
    let out = transpile(lua).unwrap();
    assert!(out.fennel.contains("(fn Obj:new [x]"), "method definition form: {}", out.fennel);
}

#[test]
fn source_map_has_an_entry_for_each_line() {
    let out = transpile("local s = [[a\nb]]\nlocal t = 1").unwrap();
    assert_eq!(out.fennel, "(local s \"a\nb\")\n(local t 1)\n");
    assert_eq!(out.source_map, vec![1, 1, 3]);
}

#[test]
fn backtick_outside_strings_is_an_error() {
    assert_eq!(transpile("local x = `a`").unwrap_err(), "unexpected character `");
    assert_eq!(transpile("`").unwrap_err(), "unexpected character `");
    // A malformed number runs to the next blank, over quotes and dashes.
    assert_eq!(transpile("x = 1.2.3\" `").unwrap_err(), "unexpected character `");
    assert!(transpile("x = 1e--`").is_err());
    assert_eq!(transpile("a1e--`\n`").unwrap_err(), "unexpected character `");
}

#[test]
fn backtick_inside_strings_and_comments_is_read() {
    assert_eq!(fnl("local x = \"a`\\\"`b\""), "(local x \"a`\\\"`b\")");
    assert_eq!(fnl("local x = '`'"), "(local x \"`\")");
    assert_eq!(fnl("local x = [[`]] -- `"), "(local x \"`\")");
    assert_eq!(fnl("--[==[ ` ]] ` ]==] local x = [=[`]]`]=]"), "(local x \"`]]`\")");
    assert_eq!(fnl("local y = 2 --[ `"), "(local y 2)");
    assert_eq!(fnl("#!/usr/bin/`lua`\nlocal x = 1"), "(local x 1)");
}

#[test]
fn open_comment_behind_a_shebang_is_an_error() {
    assert_eq!(transpile("#!lua\n--[[ open").unwrap_err(), "unclosed comment");
    assert_eq!(transpile("#!lua\n-- a\n\t--[[b]] --[=[ c ]]").unwrap_err(), "unclosed comment");
    assert_eq!(transpile("#!lua\n--[[ shut ]]").unwrap().fennel, "");
    assert_eq!(transpile("#!lua").unwrap().fennel, "");
    assert_eq!(transpile("#!lua\n").unwrap().fennel, "");
    assert!(transpile("#!lua\nlocal x = 1 --[[ open").is_err());
    assert!(transpile("--[[ open").is_err());
}
