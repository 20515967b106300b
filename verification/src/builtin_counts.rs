//! How many built-in names there are.
//!
//! The tables of built-in names are entered row by row, and a name that comes again
//! takes the place of the one before. So there are as many names as there are rows
//! whose name did not come before. Which rows these are is told by a number for each
//! name.
use vstd::prelude::*;

use crate::docs::{
    builtins_of, row_view, rows_are_entered, with_rows, with_table, BuiltinView, Platform, Row,
    COMMON, LUA51, LUA52, LUA53, LUA54, LUAJIT, LUAU,
};
use crate::names::{index_of_first, with_value};

verus! {

// ── A number for each name ──────────────────────────────────────────────────

/// Names of one character.
spec fn number_of_one(s: Seq<char>) -> int {
    match s[0] {
        'λ' => 2,
        '.' => 23,
        '#' => 25,
        '_' => 47,
        '+' => 48,
        '-' => 49,
        '*' => 50,
        '/' => 51,
        '%' => 53,
        '^' => 54,
        '<' => 55,
        '>' => 57,
        '=' => 59,
        _ => 62,
    }
}

/// Names of two characters.
spec fn number_of_two(s: Seq<char>) -> int {
    match s[0] {
        'f' => 0,
        'd' => 9,
        'i' => match s[1] {
            'f' => 10,
            _ => 105,
        },
        'o' => match s[1] {
            'r' => 21,
            _ => 106,
        },
        '.' => 24,
        '/' => 52,
        '<' => 56,
        '>' => 58,
        '~' => 61,
        '?' => 63,
        '-' => 70,
        _ => 110,
    }
}

/// Names of three characters.
spec fn number_of_three(s: Seq<char>) -> int {
    match s[0] {
        'v' => 4,
        's' => 6,
        'l' => match s[1] {
            'e' => 8,
            _ => 30,
        },
        'f' => match s[1] {
            'o' => 15,
            _ => 120,
        },
        'a' => match s[1] {
            'n' => 20,
            _ => 112,
        },
        'n' => 22,
        '&' => 43,
        'b' => match s[1] {
            'o' => 65,
            _ => 122,
        },
        '-' => match s[1] {
            '>' => 71,
            _ => 72,
        },
        _ => 121,
    }
}

/// Names of four characters.
spec fn number_of_four(s: Seq<char>) -> int {
    match s[2] {
        'e' => match s[0] {
            't' => 7,
            _ => 11,
        },
        'c' => 14,
        's' => match s[0] {
            'c' => 17,
            _ => 123,
        },
        't' => match s[0] {
            'n' => 60,
            'd' => 75,
            _ => 104,
        },
        'n' => 64,
        'o' => match s[1] {
            'x' => 66,
            _ => 67,
        },
        '>' => 73,
        '-' => 74,
        'p' => 80,
        'x' => 87,
        'a' => 96,
        'N' => 113,
        'f' => 118,
        'r' => 119,
        _ => 125,
    }
}

/// Names of five characters.
spec fn number_of_five(s: Seq<char>) -> int {
    match s[0] {
        'l' => 3,
        'w' => match s[2] {
            'i' => 13,
            _ => 46,
        },
        'm' => match s[2] {
            't' => 16,
            _ => 26,
        },
        '&' => 42,
        'c' => 45,
        'p' => match s[1] {
            'r' => 77,
            'c' => 83,
            _ => 86,
        },
        'e' => 81,
        't' => 103,
        'd' => 108,
        _ => 117,
    }
}

/// Names of six characters.
spec fn number_of_six(s: Seq<char>) -> int {
    match s[0] {
        'l' => match s[1] {
            'a' => 1,
            's' => 68,
            _ => 101,
        },
        'g' => 5,
        'u' => match s[2] {
            'l' => 12,
            _ => 116,
        },
        'v' => 19,
        'm' => 27,
        '&' => 44,
        'r' => match s[3] {
            'i' => 69,
            'g' => 91,
            's' => 92,
            _ => 94,
        },
        'a' => 82,
        'x' => 84,
        'i' => 85,
        's' => match s[1] {
            'e' => 88,
            't' => 102,
            _ => 124,
        },
        'd' => 98,
        _ => 114,
    }
}

/// A number for each built-in name, told by its length and a few of its characters:
/// the row of a common name, and on from there for the names that some platforms add.
spec fn number_of(s: Seq<char>) -> int {
    if s.len() == 1 {
        number_of_one(s)
    } else if s.len() == 2 {
        number_of_two(s)
    } else if s.len() == 3 {
        number_of_three(s)
    } else if s.len() == 4 {
        number_of_four(s)
    } else if s.len() == 5 {
        number_of_five(s)
    } else if s.len() == 6 {
        number_of_six(s)
    } else if s.len() == 7 {
        match s[5] {
            'r' => 18,
            'd' => 29,
            'c' => 37,
            'a' => 76,
            _ => 109,
        }
    } else if s.len() == 8 {
        match s[0] {
            'c' => 34,
            'i' => 38,
            'f' => 41,
            't' => match s[2] {
                's' => 78,
                _ => 79,
            },
            'r' => 93,
            'l' => 99,
            _ => 111,
        }
    } else if s.len() == 9 {
        match s[5] {
            'a' => 32,
            '-' => 35,
            'o' => 36,
            't' => 107,
            _ => 126,
        }
    } else if s.len() == 10 {
        match s[0] {
            'a' => 39,
            'l' => 97,
            _ => 115,
        }
    } else if s.len() == 11 {
        match s[0] {
            'p' => 31,
            _ => 40,
        }
    } else if s.len() == 12 {
        match s[0] {
            's' => 89,
            _ => 90,
        }
    } else if s.len() == 13 {
        match s[0] {
            'i' => 28,
            _ => 33,
        }
    } else if s.len() == 14 {
        100
    } else {
        -1
    }
}

/// The row in which a common name comes first: its own, but that `require` comes twice.
spec fn first_place(i: int) -> int {
    if i == 95 {
        18
    } else {
        i
    }
}

proof fn common_numbers_from_0(i: int)
    requires
        0 <= i < 20,
    ensures
        number_of(COMMON@[i].0@) == first_place(i),
{
    if i == 0 {
        reveal_strlit("fn");
    } else if i == 1 {
        reveal_strlit("lambda");
    } else if i == 2 {
        reveal_strlit("λ");
    } else if i == 3 {
        reveal_strlit("local");
    } else if i == 4 {
        reveal_strlit("var");
    } else if i == 5 {
        reveal_strlit("global");
    } else if i == 6 {
        reveal_strlit("set");
    } else if i == 7 {
        reveal_strlit("tset");
    } else if i == 8 {
        reveal_strlit("let");
    } else if i == 9 {
        reveal_strlit("do");
    } else if i == 10 {
        reveal_strlit("if");
    } else if i == 11 {
        reveal_strlit("when");
    } else if i == 12 {
        reveal_strlit("unless");
    } else if i == 13 {
        reveal_strlit("while");
    } else if i == 14 {
        reveal_strlit("each");
    } else if i == 15 {
        reveal_strlit("for");
    } else if i == 16 {
        reveal_strlit("match");
    } else if i == 17 {
        reveal_strlit("case");
    } else if i == 18 {
        reveal_strlit("require");
    } else {
        reveal_strlit("values");
    }
}

proof fn common_numbers_from_20(i: int)
    requires
        20 <= i < 40,
    ensures
        number_of(COMMON@[i].0@) == first_place(i),
{
    if i == 20 {
        reveal_strlit("and");
    } else if i == 21 {
        reveal_strlit("or");
    } else if i == 22 {
        reveal_strlit("not");
    } else if i == 23 {
        reveal_strlit(".");
    } else if i == 24 {
        reveal_strlit("..");
    } else if i == 25 {
        reveal_strlit("#");
    } else if i == 26 {
        reveal_strlit("macro");
    } else if i == 27 {
        reveal_strlit("macros");
    } else if i == 28 {
        reveal_strlit("import-macros");
    } else if i == 29 {
        reveal_strlit("include");
    } else if i == 30 {
        reveal_strlit("lua");
    } else if i == 31 {
        reveal_strlit("pick-values");
    } else if i == 32 {
        reveal_strlit("pick-args");
    } else if i == 33 {
        reveal_strlit("set-forcibly!");
    } else if i == 34 {
        reveal_strlit("case-try");
    } else if i == 35 {
        reveal_strlit("match-try");
    } else if i == 36 {
        reveal_strlit("with-open");
    } else if i == 37 {
        reveal_strlit("collect");
    } else if i == 38 {
        reveal_strlit("icollect");
    } else {
        reveal_strlit("accumulate");
    }
}

proof fn common_numbers_from_40(i: int)
    requires
        40 <= i < 60,
    ensures
        number_of(COMMON@[i].0@) == first_place(i),
{
    if i == 40 {
        reveal_strlit("faccumulate");
    } else if i == 41 {
        reveal_strlit("fcollect");
    } else if i == 42 {
        reveal_strlit("&into");
    } else if i == 43 {
        reveal_strlit("&as");
    } else if i == 44 {
        reveal_strlit("&until");
    } else if i == 45 {
        reveal_strlit("catch");
    } else if i == 46 {
        reveal_strlit("where");
    } else if i == 47 {
        reveal_strlit("_");
    } else if i == 48 {
        reveal_strlit("+");
    } else if i == 49 {
        reveal_strlit("-");
    } else if i == 50 {
        reveal_strlit("*");
    } else if i == 51 {
        reveal_strlit("/");
    } else if i == 52 {
        reveal_strlit("//");
    } else if i == 53 {
        reveal_strlit("%");
    } else if i == 54 {
        reveal_strlit("^");
    } else if i == 55 {
        reveal_strlit("<");
    } else if i == 56 {
        reveal_strlit("<=");
    } else if i == 57 {
        reveal_strlit(">");
    } else if i == 58 {
        reveal_strlit(">=");
    } else {
        reveal_strlit("=");
    }
}

proof fn common_numbers_from_60(i: int)
    requires
        60 <= i < 80,
    ensures
        number_of(COMMON@[i].0@) == first_place(i),
{
    if i == 60 {
        reveal_strlit("not=");
    } else if i == 61 {
        reveal_strlit("~=");
    } else if i == 62 {
        reveal_strlit(":");
    } else if i == 63 {
        reveal_strlit("?.");
    } else if i == 64 {
        reveal_strlit("band");
    } else if i == 65 {
        reveal_strlit("bor");
    } else if i == 66 {
        reveal_strlit("bxor");
    } else if i == 67 {
        reveal_strlit("bnot");
    } else if i == 68 {
        reveal_strlit("lshift");
    } else if i == 69 {
        reveal_strlit("rshift");
    } else if i == 70 {
        reveal_strlit("->");
    } else if i == 71 {
        reveal_strlit("->>");
    } else if i == 72 {
        reveal_strlit("-?>");
    } else if i == 73 {
        reveal_strlit("-?>>");
    } else if i == 74 {
        reveal_strlit("as->");
    } else if i == 75 {
        reveal_strlit("doto");
    } else if i == 76 {
        reveal_strlit("partial");
    } else if i == 77 {
        reveal_strlit("print");
    } else if i == 78 {
        reveal_strlit("tostring");
    } else {
        reveal_strlit("tonumber");
    }
}

proof fn common_numbers_from_80(i: int)
    requires
        80 <= i < 100,
    ensures
        number_of(COMMON@[i].0@) == first_place(i),
{
    if i == 80 {
        reveal_strlit("type");
    } else if i == 81 {
        reveal_strlit("error");
    } else if i == 82 {
        reveal_strlit("assert");
    } else if i == 83 {
        reveal_strlit("pcall");
    } else if i == 84 {
        reveal_strlit("xpcall");
    } else if i == 85 {
        reveal_strlit("ipairs");
    } else if i == 86 {
        reveal_strlit("pairs");
    } else if i == 87 {
        reveal_strlit("next");
    } else if i == 88 {
        reveal_strlit("select");
    } else if i == 89 {
        reveal_strlit("setmetatable");
    } else if i == 90 {
        reveal_strlit("getmetatable");
    } else if i == 91 {
        reveal_strlit("rawget");
    } else if i == 92 {
        reveal_strlit("rawset");
    } else if i == 93 {
        reveal_strlit("rawequal");
    } else if i == 94 {
        reveal_strlit("rawlen");
    } else if i == 95 {
        reveal_strlit("require");
    } else if i == 96 {
        reveal_strlit("load");
    } else if i == 97 {
        reveal_strlit("loadstring");
    } else if i == 98 {
        reveal_strlit("dofile");
    } else {
        reveal_strlit("loadfile");
    }
}

proof fn common_numbers_from_100(i: int)
    requires
        100 <= i < 116,
    ensures
        number_of(COMMON@[i].0@) == first_place(i),
{
    if i == 100 {
        reveal_strlit("collectgarbage");
    } else if i == 101 {
        reveal_strlit("length");
    } else if i == 102 {
        reveal_strlit("string");
    } else if i == 103 {
        reveal_strlit("table");
    } else if i == 104 {
        reveal_strlit("math");
    } else if i == 105 {
        reveal_strlit("io");
    } else if i == 106 {
        reveal_strlit("os");
    } else if i == 107 {
        reveal_strlit("coroutine");
    } else if i == 108 {
        reveal_strlit("debug");
    } else if i == 109 {
        reveal_strlit("package");
    } else if i == 110 {
        reveal_strlit("_G");
    } else if i == 111 {
        reveal_strlit("_VERSION");
    } else if i == 112 {
        reveal_strlit("arg");
    } else if i == 113 {
        reveal_strlit("_ENV");
    } else if i == 114 {
        reveal_strlit("fennel");
    } else {
        reveal_strlit("___repl___");
    }
}

proof fn common_numbers(i: int)
    requires
        0 <= i < COMMON@.len(),
    ensures
        number_of(COMMON@[i].0@) == first_place(i),
{
    if i < 20 {
        common_numbers_from_0(i);
    } else if i < 40 {
        common_numbers_from_20(i);
    } else if i < 60 {
        common_numbers_from_40(i);
    } else if i < 80 {
        common_numbers_from_60(i);
    } else if i < 100 {
        common_numbers_from_80(i);
    } else {
        common_numbers_from_100(i);
    }
}

proof fn platform_numbers()
    ensures
        number_of(LUA51@[0].0@) == 116,
        number_of(LUA52@[0].0@) == 117,
        number_of(LUA53@[0].0@) == 118,
        number_of(LUA54@[0].0@) == 119,
        number_of(LUAJIT@[0].0@) == 120,
        number_of(LUAJIT@[1].0@) == 121,
        number_of(LUAJIT@[2].0@) == 122,
        number_of(LUAU@[0].0@) == 123,
        number_of(LUAU@[1].0@) == 124,
        number_of(LUAU@[2].0@) == 125,
        number_of(LUAU@[3].0@) == 126,
{
    reveal_strlit("unpack");
    reveal_strlit("bit32");
    reveal_strlit("utf8");
    reveal_strlit("warn");
    reveal_strlit("ffi");
    reveal_strlit("jit");
    reveal_strlit("bit");
    reveal_strlit("task");
    reveal_strlit("script");
    reveal_strlit("game");
    reveal_strlit("workspace");
}

// ── Counting ────────────────────────────────────────────────────────────────

/// The numbers of all the names of a set are below `n`.
spec fn numbers_below(set: Seq<(Seq<char>, BuiltinView)>, n: int) -> bool {
    forall|i: int| 0 <= i < set.len() ==> 0 <= number_of((#[trigger] set[i]).0) < n
}

/// A name whose number is above those of a set is new to the set.
proof fn new_name_counts(set: Seq<(Seq<char>, BuiltinView)>, row: Row, n: int)
    requires
        numbers_below(set, n),
        n <= number_of(row.0@),
        0 <= n,
    ensures
        with_value(set, row.0@, row_view(row)).len() == set.len() + 1,
        numbers_below(with_value(set, row.0@, row_view(row)), number_of(row.0@) + 1),
{
    index_of_first(set, row.0@);
}

/// The common names after the first `k` rows.
proof fn common_count(k: int)
    requires
        0 <= k <= COMMON@.len(),
    ensures
        numbers_below(with_rows(Seq::empty(), COMMON@, k), k),
        with_rows(Seq::empty(), COMMON@, k).len() == (if k <= 95 {
            k
        } else {
            k - 1
        }),
    decreases k,
{
    if k > 0 {
        let none = Seq::<(Seq<char>, BuiltinView)>::empty();
        let before = with_rows(none, COMMON@, k - 1);
        let row = COMMON@[k - 1];
        common_count(k - 1);
        common_numbers(k - 1);
        if k - 1 == 95 {
            rows_are_entered(none, COMMON@, 95, 18);
            assert(COMMON@[18].0@ == row.0@);
            index_of_first(before, row.0@);
        } else {
            new_name_counts(before, row, k - 1);
        }
    }
}

/// The number of built-in names of a platform.
pub open spec fn builtin_count(platform: Platform) -> nat {
    match platform {
        Platform::Lua51 => 116,
        Platform::Lua52 => 116,
        Platform::Lua53 => 116,
        Platform::Lua54 => 117,
        Platform::LuaJIT => 119,
        Platform::Luau => 119,
    }
}

/// How many names all platforms share, and how many each of them has.
pub proof fn builtins_are_counted(platform: Platform)
    ensures
        with_table(Seq::empty(), COMMON@).len() == 115,
        builtins_of(platform).len() == builtin_count(platform),
{
    let common = with_table(Seq::empty(), COMMON@);
    common_count(COMMON@.len() as int);
    platform_numbers();
    reveal_with_fuel(with_rows, 5);
    match platform {
        Platform::Lua51 => {
            new_name_counts(common, LUA51@[0], 116);
        },
        Platform::Lua52 => {
            new_name_counts(common, LUA52@[0], 116);
        },
        Platform::Lua53 => {
            new_name_counts(common, LUA53@[0], 116);
        },
        Platform::Lua54 => {
            new_name_counts(common, LUA53@[0], 116);
            new_name_counts(with_table(common, LUA53@), LUA54@[0], 119);
        },
        Platform::LuaJIT => {
            new_name_counts(common, LUA51@[0], 116);
            let lua51 = with_table(common, LUA51@);
            new_name_counts(lua51, LUAJIT@[0], 117);
            new_name_counts(with_rows(lua51, LUAJIT@, 1), LUAJIT@[1], 121);
            new_name_counts(with_rows(lua51, LUAJIT@, 2), LUAJIT@[2], 122);
        },
        Platform::Luau => {
            new_name_counts(common, LUAU@[0], 116);
            new_name_counts(with_rows(common, LUAU@, 1), LUAU@[1], 124);
            new_name_counts(with_rows(common, LUAU@, 2), LUAU@[2], 125);
            new_name_counts(with_rows(common, LUAU@, 3), LUAU@[3], 126);
        },
    }
}

} // verus!
