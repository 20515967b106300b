use fennel_ls::docs::{get, BuiltinDoc, BuiltinKind, BuiltinSet, Platform};

// ── Common entries present on all platforms ───────────────────────────────

#[test]
fn common_builtin_resolves() {
    for platform in [
        Platform::Lua51, Platform::Lua52, Platform::Lua53,
        Platform::Lua54, Platform::LuaJIT, Platform::Luau,
    ] {
        let set = BuiltinSet::for_platform(platform);
        assert!(set.get("print").is_some(),   "print missing on {platform:?}");
        assert!(set.get("pairs").is_some(),   "pairs missing on {platform:?}");
        assert!(set.get("tostring").is_some(),"tostring missing on {platform:?}");
        assert!(set.get("fn").is_some(),      "fn missing on {platform:?}");
        assert!(set.get("+").is_some(),       "+ missing on {platform:?}");
    }
}

#[test]
fn unknown_name_returns_none() {
    let set = BuiltinSet::for_platform(Platform::Lua54);
    assert!(set.get("definitely_not_a_builtin_xyz").is_none());
}

// ── Multisym lookup ───────────────────────────────────────────────────────

#[test]
fn multisym_dot_resolves_via_root() {
    let set = BuiltinSet::for_platform(Platform::Lua54);
    // `io` is a known root; `io.open` should resolve via it
    assert!(set.get("io.open").is_some());
    assert!(set.get("string.format").is_some());
    assert!(set.get("math.max").is_some());
    assert!(set.get("table.insert").is_some());
}

#[test]
fn multisym_colon_resolves_via_root() {
    let set = BuiltinSet::for_platform(Platform::Lua54);
    assert!(set.get("string:format").is_some());
}

#[test]
fn unknown_multisym_returns_none() {
    let set = BuiltinSet::for_platform(Platform::Lua54);
    assert!(set.get("mylib.foo").is_none());
}

// ── Platform-specific entries ─────────────────────────────────────────────

#[test]
fn lua51_has_unpack_global() {
    assert!(BuiltinSet::for_platform(Platform::Lua51).get("unpack").is_some());
}

#[test]
fn lua54_does_not_have_unpack_global() {
    // In Lua 5.4 `unpack` is `table.unpack` — bare `unpack` is a bug
    assert!(BuiltinSet::for_platform(Platform::Lua54).get("unpack").is_none());
}

#[test]
fn lua54_has_warn() {
    assert!(BuiltinSet::for_platform(Platform::Lua54).get("warn").is_some());
}

#[test]
fn lua51_does_not_have_warn() {
    assert!(BuiltinSet::for_platform(Platform::Lua51).get("warn").is_none());
}

#[test]
fn luajit_has_ffi_jit_bit() {
    let set = BuiltinSet::for_platform(Platform::LuaJIT);
    assert!(set.get("ffi").is_some());
    assert!(set.get("jit").is_some());
    assert!(set.get("bit").is_some());
    // LuaJIT is based on Lua 5.1 so also has `unpack`
    assert!(set.get("unpack").is_some());
}

#[test]
fn lua54_does_not_have_ffi() {
    assert!(BuiltinSet::for_platform(Platform::Lua54).get("ffi").is_none());
}

#[test]
fn lua52_has_bit32() {
    assert!(BuiltinSet::for_platform(Platform::Lua52).get("bit32").is_some());
}

#[test]
fn lua54_does_not_have_bit32() {
    assert!(BuiltinSet::for_platform(Platform::Lua54).get("bit32").is_none());
}

#[test]
fn luau_has_roblox_globals() {
    let set = BuiltinSet::for_platform(Platform::Luau);
    assert!(set.get("task").is_some());
    assert!(set.get("script").is_some());
    assert!(set.get("game").is_some());
}

#[test]
fn lua53_has_utf8() {
    let set = BuiltinSet::for_platform(Platform::Lua53);
    assert!(set.get("utf8").is_some());
}

// ── with_extra ────────────────────────────────────────────────────────────

#[test]
fn with_extra_adds_entry() {
    let set = BuiltinSet::for_platform(Platform::Lua54).with_extra(vec![(
        "love".to_string(),
        BuiltinDoc {
            signature: "love".into(),
            doc: "LÖVE game framework global.".into(),
            kind: BuiltinKind::Value,
        },
    )]);
    assert!(set.get("love").is_some());
}

#[test]
fn with_extra_multisym_resolves_via_root() {
    let set = BuiltinSet::for_platform(Platform::Lua54).with_extra(vec![(
        "love".to_string(),
        BuiltinDoc { signature: "love".into(), doc: "LÖVE".into(), kind: BuiltinKind::Value },
    )]);
    // `love.graphics` should resolve via the `love` root
    assert!(set.get("love.graphics").is_some());
    assert!(set.get("love.audio").is_some());
}

#[test]
fn with_extra_overrides_existing() {
    let custom_doc = BuiltinDoc {
        signature: "(print custom)".into(),
        doc: "Custom print override.".into(),
        kind: BuiltinKind::Function,
    };
    let set = BuiltinSet::for_platform(Platform::Lua54)
        .with_extra(vec![("print".to_string(), custom_doc.clone())]);
    assert_eq!(set.get("print").unwrap().doc, "Custom print override.");
}

// ── is_known ─────────────────────────────────────────────────────────────

#[test]
fn is_known_true_for_builtins() {
    let set = BuiltinSet::for_platform(Platform::Lua54);
    assert!(set.is_known("print"));
    assert!(set.is_known("io.open"));
}

#[test]
fn is_known_false_for_unknowns() {
    let set = BuiltinSet::for_platform(Platform::Lua54);
    assert!(!set.is_known("my_custom_global"));
}

// ── iter ─────────────────────────────────────────────────────────────────

#[test]
fn iter_contains_all_entries() {
    let set = BuiltinSet::for_platform(Platform::Lua54);
    let names: Vec<&str> = set.iter().into_iter().map(|(n, _)| n).collect();
    assert!(names.contains(&"print"));
    assert!(names.contains(&"io"));
    assert!(names.contains(&"fn"));
}

// ── backward-compat free functions ────────────────────────────────────────

#[test]
fn free_get_resolves_common_builtin() {
    assert!(get("print").is_some());
    assert!(get("io.open").is_some());
    assert!(get("nonexistent_xyz").is_none());
}

#[test]
fn iter_yields_each_entry_once() {
    let set = BuiltinSet::for_platform(Platform::Lua54);
    let all = set.iter();
    assert_eq!(all.len(), 117);
    for (i, (name, doc)) in all.iter().enumerate() {
        assert!(all[..i].iter().all(|(other, _)| other != name));
        assert_eq!(set.get(name).unwrap().signature, doc.signature);
        assert_eq!(get(name).unwrap().doc, doc.doc);
    }
}

#[test]
fn each_platform_has_its_number_of_names() {
    let counts = [
        (Platform::Lua51, 116),
        (Platform::Lua52, 116),
        (Platform::Lua53, 116),
        (Platform::Lua54, 117),
        (Platform::LuaJIT, 119),
        (Platform::Luau, 119),
    ];
    for (platform, count) in counts {
        assert_eq!(BuiltinSet::for_platform(platform).iter().len(), count);
    }
}
