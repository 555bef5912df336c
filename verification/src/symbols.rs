//! Extraction of top-level symbols (functions, types) from source files by language.
use vstd::prelude::*;

verus! {

/// What a symbol names.
#[derive(Debug, Clone, Copy, PartialEq, Eq, Structural)]
pub enum SymbolKind {
    Function,
    Struct,
    Class,
    Interface,
    Import,
    Variable,
    Module,
}

/// A symbol found in a source file.
#[derive(Debug, Clone)]
pub struct SemanticSymbol {
    pub name: String,
    pub kind: SymbolKind,
    pub line: usize,
    pub references: Vec<String>,
}

/// The extractor of symbols for the languages it knows.
pub struct PolyglotAstEngine;

/// What the `regex` crate finds in `text` for `pattern`: `None` where the pattern
/// does not compile, else, for each successive non-overlapping match, its first
/// capture group (`None` where that group took no part in the match).
pub uninterp spec fn regex_first_groups(pattern: Seq<char>, text: Seq<char>) -> Option<Seq<Option<Seq<char>>>>;

/// The texts of optional strings.
pub open spec fn optional_texts(v: Seq<Option<String>>) -> Seq<Option<Seq<char>>> {
    v.map_values(|o: Option<String>| match o {
        Some(s) => Some(s@),
        None => None,
    })
}

/// Compiles `pattern` with `regex::Regex::new` and runs `captures_iter` over
/// `text`, handing back the first capture group of each match.
/// Claimed of the crate: the result is a function of `pattern` and `text` alone.
#[verifier::external_body]
fn regex_capture_first_groups(pattern: &str, text: &str) -> (res: Option<Vec<Option<String>>>)
    ensures
        res is Some <==> regex_first_groups(pattern@, text@) is Some,
        res matches Some(v) ==> optional_texts(v@) == regex_first_groups(pattern@, text@)->0,
{
    match regex::Regex::new(pattern) {
        Ok(re) => Some(
            re.captures_iter(text).map(|c| c.get(1).map(|m| m.as_str().to_string())).collect(),
        ),
        Err(_) => None,
    }
}

pub open spec fn rust_fn_pattern() -> Seq<char> {
    r"(?m)^\s*(?:pub\s+)?(?:async\s+)?fn\s+([a-zA-Z0-9_]+)"@
}

pub open spec fn rust_struct_pattern() -> Seq<char> {
    r"(?m)^\s*(?:pub\s+)?struct\s+([a-zA-Z0-9_]+)"@
}

pub open spec fn go_func_pattern() -> Seq<char> {
    r"(?m)^\s*func\s+(?:\([^)]+\)\s+)?([a-zA-Z0-9_]+)\s*\("@
}

pub open spec fn go_type_pattern() -> Seq<char> {
    r"(?m)^\s*type\s+([a-zA-Z0-9_]+)\s+struct"@
}

pub open spec fn py_def_pattern() -> Seq<char> {
    r"(?m)^\s*def\s+([a-zA-Z0-9_]+)"@
}

pub open spec fn py_class_pattern() -> Seq<char> {
    r"(?m)^\s*class\s+([a-zA-Z0-9_]+)"@
}

pub open spec fn ts_function_pattern() -> Seq<char> {
    r"(?m)^\s*(?:export\s+)?(?:async\s+)?function\s+([a-zA-Z0-9_]+)"@
}

pub open spec fn ts_interface_pattern() -> Seq<char> {
    r"(?m)^\s*(?:export\s+)?interface\s+([a-zA-Z0-9_]+)"@
}

pub open spec fn ts_class_pattern() -> Seq<char> {
    r"(?m)^\s*(?:export\s+)?class\s+([a-zA-Z0-9_]+)"@
}

pub open spec fn zig_fn_pattern() -> Seq<char> {
    r"(?m)^\s*(?:pub\s+)?fn\s+([a-zA-Z0-9_]+)"@
}

pub open spec fn zig_struct_pattern() -> Seq<char> {
    r"(?m)^\s*(?:pub\s+)?const\s+([a-zA-Z0-9_]+)\s*=\s*struct"@
}

pub open spec fn java_class_pattern() -> Seq<char> {
    r"(?m)^\s*(?:public\s+)?(?:final\s+)?class\s+([a-zA-Z0-9_]+)"@
}

pub open spec fn java_interface_pattern() -> Seq<char> {
    r"(?m)^\s*(?:public\s+)?interface\s+([a-zA-Z0-9_]+)"@
}

pub open spec fn dart_class_pattern() -> Seq<char> {
    r"(?m)^\s*(?:abstract\s+)?class\s+([a-zA-Z0-9_]+)"@
}

pub open spec fn cpp_class_pattern() -> Seq<char> {
    r"(?m)^\s*(?:class|struct)\s+([a-zA-Z0-9_]+)"@
}

/// The patterns searched for a file extension, each with the kind of symbol it
/// finds, in the order in which their symbols are listed.
pub open spec fn language_patterns(ext: Seq<char>) -> Seq<(Seq<char>, SymbolKind)> {
    if ext == "rs"@ {
        seq![(rust_fn_pattern(), SymbolKind::Function), (rust_struct_pattern(), SymbolKind::Struct)]
    } else if ext == "go"@ {
        seq![(go_func_pattern(), SymbolKind::Function), (go_type_pattern(), SymbolKind::Struct)]
    } else if ext == "py"@ {
        seq![(py_def_pattern(), SymbolKind::Function), (py_class_pattern(), SymbolKind::Class)]
    } else if ext == "ts"@ || ext == "js"@ {
        seq![
            (ts_function_pattern(), SymbolKind::Function),
            (ts_interface_pattern(), SymbolKind::Interface),
            (ts_class_pattern(), SymbolKind::Class),
        ]
    } else if ext == "zig"@ {
        seq![(zig_fn_pattern(), SymbolKind::Function), (zig_struct_pattern(), SymbolKind::Struct)]
    } else if ext == "java"@ {
        seq![
            (java_class_pattern(), SymbolKind::Class),
            (java_interface_pattern(), SymbolKind::Interface),
        ]
    } else if ext == "dart"@ {
        seq![(dart_class_pattern(), SymbolKind::Class)]
    } else if ext == "cpp"@ || ext == "cc"@ || ext == "cxx"@ || ext == "h"@ || ext == "hpp"@ {
        seq![(cpp_class_pattern(), SymbolKind::Class)]
    } else {
        seq![]
    }
}

/// The captured names, in order, skipping groups that took no part in their match.
pub open spec fn captured_names(caps: Seq<Option<Seq<char>>>) -> Seq<Seq<char>>
    decreases caps.len(),
{
    if caps.len() == 0 {
        seq![]
    } else {
        captured_names(caps.drop_last()) + match caps.last() {
            Some(name) => seq![name],
            None => Seq::<Seq<char>>::empty(),
        }
    }
}

/// The symbols, each as its name and kind.
pub open spec fn symbol_entries(v: Seq<SemanticSymbol>) -> Seq<(Seq<char>, SymbolKind)> {
    v.map_values(|s: SemanticSymbol| (s.name@, s.kind))
}

/// Every name found by one pattern, tagged with the pattern's kind.
pub open spec fn tagged(names: Seq<Seq<char>>, kind: SymbolKind) -> Seq<(Seq<char>, SymbolKind)> {
    names.map_values(|n: Seq<char>| (n, kind))
}

/// The symbols that `patterns` find in `text`, pattern by pattern, each
/// pattern's in the order of its matches.
pub open spec fn found_by_patterns(patterns: Seq<(Seq<char>, SymbolKind)>, text: Seq<char>) -> Seq<(Seq<char>, SymbolKind)>
    decreases patterns.len(),
{
    if patterns.len() == 0 {
        seq![]
    } else {
        found_by_patterns(patterns.drop_last(), text) + match regex_first_groups(patterns.last().0, text) {
            Some(caps) => tagged(captured_names(caps), patterns.last().1),
            None => Seq::<(Seq<char>, SymbolKind)>::empty(),
        }
    }
}

/// Symbols as the extractor records them: at line 1, without references.
pub open spec fn plain_symbols(v: Seq<SemanticSymbol>) -> bool {
    forall|i: int| 0 <= i < v.len() ==> #[trigger] v[i].line == 1 && v[i].references@.len() == 0
}

fn same_text(a: &str, b: &str) -> (res: bool)
    ensures
        res == (a@ == b@),
{
    a.to_owned() == b.to_owned()
}

fn patterns_for(ext: &str) -> (res: Vec<(&'static str, SymbolKind)>)
    ensures
        res@.map_values(|p: (&'static str, SymbolKind)| (p.0@, p.1)) == language_patterns(ext@),
{
    let mut v: Vec<(&'static str, SymbolKind)> = Vec::new();
    if same_text(ext, "rs") {
        v.push((r"(?m)^\s*(?:pub\s+)?(?:async\s+)?fn\s+([a-zA-Z0-9_]+)", SymbolKind::Function));
        v.push((r"(?m)^\s*(?:pub\s+)?struct\s+([a-zA-Z0-9_]+)", SymbolKind::Struct));
    } else if same_text(ext, "go") {
        v.push((r"(?m)^\s*func\s+(?:\([^)]+\)\s+)?([a-zA-Z0-9_]+)\s*\(", SymbolKind::Function));
        v.push((r"(?m)^\s*type\s+([a-zA-Z0-9_]+)\s+struct", SymbolKind::Struct));
    } else if same_text(ext, "py") {
        v.push((r"(?m)^\s*def\s+([a-zA-Z0-9_]+)", SymbolKind::Function));
        v.push((r"(?m)^\s*class\s+([a-zA-Z0-9_]+)", SymbolKind::Class));
    } else if same_text(ext, "ts") || same_text(ext, "js") {
        v.push((r"(?m)^\s*(?:export\s+)?(?:async\s+)?function\s+([a-zA-Z0-9_]+)", SymbolKind::Function));
        v.push((r"(?m)^\s*(?:export\s+)?interface\s+([a-zA-Z0-9_]+)", SymbolKind::Interface));
        v.push((r"(?m)^\s*(?:export\s+)?class\s+([a-zA-Z0-9_]+)", SymbolKind::Class));
    } else if same_text(ext, "zig") {
        v.push((r"(?m)^\s*(?:pub\s+)?fn\s+([a-zA-Z0-9_]+)", SymbolKind::Function));
        v.push((r"(?m)^\s*(?:pub\s+)?const\s+([a-zA-Z0-9_]+)\s*=\s*struct", SymbolKind::Struct));
    } else if same_text(ext, "java") {
        v.push((r"(?m)^\s*(?:public\s+)?(?:final\s+)?class\s+([a-zA-Z0-9_]+)", SymbolKind::Class));
        v.push((r"(?m)^\s*(?:public\s+)?interface\s+([a-zA-Z0-9_]+)", SymbolKind::Interface));
    } else if same_text(ext, "dart") {
        v.push((r"(?m)^\s*(?:abstract\s+)?class\s+([a-zA-Z0-9_]+)", SymbolKind::Class));
    } else if same_text(ext, "cpp") || same_text(ext, "cc") || same_text(ext, "cxx") || same_text(ext, "h")
        || same_text(ext, "hpp") {
        v.push((r"(?m)^\s*(?:class|struct)\s+([a-zA-Z0-9_]+)", SymbolKind::Class));
    }
    proof {
        assert(v@.map_values(|p: (&'static str, SymbolKind)| (p.0@, p.1)) =~= language_patterns(ext@));
    }
    v
}

impl PolyglotAstEngine {
    /// The symbols of one pattern's matches: one per capture that took part in
    /// its match, in order, of the given kind, at line 1, without references.
    pub fn symbols_from_captures(captures: &Vec<Option<String>>, kind: SymbolKind) -> (res: Vec<SemanticSymbol>)
        ensures
            symbol_entries(res@) == tagged(captured_names(optional_texts(captures@)), kind),
            plain_symbols(res@),
    {
        let mut out: Vec<SemanticSymbol> = Vec::new();
        let mut i: usize = 0;
        while i < captures.len()
            invariant
                i <= captures@.len(),
                symbol_entries(out@) == tagged(captured_names(optional_texts(captures@.subrange(0, i as int))), kind),
                plain_symbols(out@),
            decreases captures@.len() - i,
        {
            let ghost before = out@;
            let ghost prefix = captures@.subrange(0, i as int);
            let ghost next = captures@.subrange(0, i + 1);
            proof {
                assert(optional_texts(next).drop_last() =~= optional_texts(prefix));
            }
            match &captures[i] {
                Some(name) => {
                    out.push(SemanticSymbol { name: name.clone(), kind, line: 1, references: Vec::new() });
                    proof {
                        assert(optional_texts(next).last() == Some(name@));
                        assert(symbol_entries(out@) =~= symbol_entries(before).push((name@, kind)));
                        assert(tagged(captured_names(optional_texts(next)), kind) =~= tagged(
                            captured_names(optional_texts(prefix)),
                            kind,
                        ).push((name@, kind)));
                    }
                },
                None => {
                    proof {
                        assert(optional_texts(next).last() is None);
                        assert(captured_names(optional_texts(next)) =~= captured_names(optional_texts(prefix)));
                    }
                },
            }
            i = i + 1;
        }
        proof {
            assert(captures@.subrange(0, captures@.len() as int) =~= captures@);
        }
        out
    }

    /// The functions and types declared in `source_code`, a file with extension
    /// `file_ext`: for each pattern of the language in turn, the names that its
    /// matches capture. An unknown extension gives no symbols.
    pub fn extract_symbols(source_code: &str, file_ext: &str) -> (res: Vec<SemanticSymbol>)
        ensures
            symbol_entries(res@) == found_by_patterns(language_patterns(file_ext@), source_code@),
            plain_symbols(res@),
    {
        let patterns = patterns_for(file_ext);
        let ghost pv = patterns@.map_values(|p: (&'static str, SymbolKind)| (p.0@, p.1));
        let mut symbols: Vec<SemanticSymbol> = Vec::new();
        let mut k: usize = 0;
        while k < patterns.len()
            invariant
                pv == patterns@.map_values(|p: (&'static str, SymbolKind)| (p.0@, p.1)),
                k <= patterns@.len(),
                symbol_entries(symbols@) == found_by_patterns(pv.subrange(0, k as int), source_code@),
                plain_symbols(symbols@),
            decreases patterns@.len() - k,
        {
            let (pattern, kind) = patterns[k];
            let ghost before = symbols@;
            proof {
                assert(pv.subrange(0, k + 1).drop_last() =~= pv.subrange(0, k as int));
                assert(pv.subrange(0, k + 1).last() == (pattern@, kind));
            }
            match regex_capture_first_groups(pattern, source_code) {
                Some(caps) => {
                    let found = Self::symbols_from_captures(&caps, kind);
                    let mut j: usize = 0;
                    while j < found.len()
                        invariant
                            j <= found@.len(),
                            symbol_entries(symbols@) == symbol_entries(before) + symbol_entries(found@).subrange(0, j as int),
                            plain_symbols(symbols@),
                            plain_symbols(found@),
                        decreases found@.len() - j,
                    {
                        let s = &found[j];
                        let copy = SemanticSymbol { name: s.name.clone(), kind: s.kind, line: 1, references: Vec::new() };
                        let ghost mid = symbols@;
                        symbols.push(copy);
                        proof {
                            assert(symbol_entries(symbols@) =~= symbol_entries(mid).push((s.name@, s.kind)));
                            assert(symbol_entries(found@).subrange(0, j + 1) =~= symbol_entries(found@).subrange(0, j as int).push((s.name@, s.kind)));
                        }
                        j = j + 1;
                    }
                    proof {
                        assert(symbol_entries(found@).subrange(0, found@.len() as int) =~= symbol_entries(found@));
                    }
                },
                None => {
                    proof {
                        assert(symbol_entries(symbols@) =~= symbol_entries(before) + Seq::<(Seq<char>, SymbolKind)>::empty());
                    }
                },
            }
            k = k + 1;
        }
        proof {
            assert(pv.subrange(0, patterns@.len() as int) =~= pv);
        }
        symbols
    }
}

/// Law: the extraction rules, language by language, in the order in which
/// their symbols are listed. Rust: functions (public, `async` or not) and
/// structs. Go: functions, methods too (an optional receiver `(...)` may stand
/// between `func` and the name), and `struct` types. Python: `def` and `class`.
/// TypeScript and JavaScript: functions, interfaces and classes, exported or
/// not. Zig: functions and `const` structs. Java: classes and interfaces. Dart:
/// classes, abstract or not. C and C++ headers and sources: classes and structs,
/// as classes.
pub proof fn lemma_extraction_rules()
    ensures
        language_patterns("rs"@) == seq![(r"(?m)^\s*(?:pub\s+)?(?:async\s+)?fn\s+([a-zA-Z0-9_]+)"@, SymbolKind::Function), (r"(?m)^\s*(?:pub\s+)?struct\s+([a-zA-Z0-9_]+)"@, SymbolKind::Struct)],
        language_patterns("go"@) == seq![(r"(?m)^\s*func\s+(?:\([^)]+\)\s+)?([a-zA-Z0-9_]+)\s*\("@, SymbolKind::Function), (r"(?m)^\s*type\s+([a-zA-Z0-9_]+)\s+struct"@, SymbolKind::Struct)],
        language_patterns("py"@) == seq![(r"(?m)^\s*def\s+([a-zA-Z0-9_]+)"@, SymbolKind::Function), (r"(?m)^\s*class\s+([a-zA-Z0-9_]+)"@, SymbolKind::Class)],
        language_patterns("ts"@) == seq![(r"(?m)^\s*(?:export\s+)?(?:async\s+)?function\s+([a-zA-Z0-9_]+)"@, SymbolKind::Function), (r"(?m)^\s*(?:export\s+)?interface\s+([a-zA-Z0-9_]+)"@, SymbolKind::Interface), (r"(?m)^\s*(?:export\s+)?class\s+([a-zA-Z0-9_]+)"@, SymbolKind::Class)],
        language_patterns("js"@) == seq![(r"(?m)^\s*(?:export\s+)?(?:async\s+)?function\s+([a-zA-Z0-9_]+)"@, SymbolKind::Function), (r"(?m)^\s*(?:export\s+)?interface\s+([a-zA-Z0-9_]+)"@, SymbolKind::Interface), (r"(?m)^\s*(?:export\s+)?class\s+([a-zA-Z0-9_]+)"@, SymbolKind::Class)],
        language_patterns("zig"@) == seq![(r"(?m)^\s*(?:pub\s+)?fn\s+([a-zA-Z0-9_]+)"@, SymbolKind::Function), (r"(?m)^\s*(?:pub\s+)?const\s+([a-zA-Z0-9_]+)\s*=\s*struct"@, SymbolKind::Struct)],
        language_patterns("java"@) == seq![(r"(?m)^\s*(?:public\s+)?(?:final\s+)?class\s+([a-zA-Z0-9_]+)"@, SymbolKind::Class), (r"(?m)^\s*(?:public\s+)?interface\s+([a-zA-Z0-9_]+)"@, SymbolKind::Interface)],
        language_patterns("dart"@) == seq![(r"(?m)^\s*(?:abstract\s+)?class\s+([a-zA-Z0-9_]+)"@, SymbolKind::Class)],
        language_patterns("cpp"@) == seq![(r"(?m)^\s*(?:class|struct)\s+([a-zA-Z0-9_]+)"@, SymbolKind::Class)],
        language_patterns("cc"@) == seq![(r"(?m)^\s*(?:class|struct)\s+([a-zA-Z0-9_]+)"@, SymbolKind::Class)],
        language_patterns("cxx"@) == seq![(r"(?m)^\s*(?:class|struct)\s+([a-zA-Z0-9_]+)"@, SymbolKind::Class)],
        language_patterns("h"@) == seq![(r"(?m)^\s*(?:class|struct)\s+([a-zA-Z0-9_]+)"@, SymbolKind::Class)],
        language_patterns("hpp"@) == seq![(r"(?m)^\s*(?:class|struct)\s+([a-zA-Z0-9_]+)"@, SymbolKind::Class)],
{
    reveal_strlit("rs");
    reveal_strlit("go");
    reveal_strlit("py");
    reveal_strlit("ts");
    reveal_strlit("js");
    reveal_strlit("zig");
    reveal_strlit("java");
    reveal_strlit("dart");
    reveal_strlit("cpp");
    reveal_strlit("cc");
    reveal_strlit("cxx");
    reveal_strlit("h");
    reveal_strlit("hpp");
    assert("rs"@.len() == 2 && "rs"@[0] == 'r' && "rs"@[1] == 's');
    assert("go"@.len() == 2 && "go"@[0] == 'g' && "go"@[1] == 'o');
    assert("py"@.len() == 2 && "py"@[0] == 'p' && "py"@[1] == 'y');
    assert("ts"@.len() == 2 && "ts"@[0] == 't' && "ts"@[1] == 's');
    assert("js"@.len() == 2 && "js"@[0] == 'j' && "js"@[1] == 's');
    assert("zig"@.len() == 3 && "zig"@[0] == 'z' && "zig"@[1] == 'i');
    assert("java"@.len() == 4 && "java"@[0] == 'j' && "java"@[1] == 'a');
    assert("dart"@.len() == 4 && "dart"@[0] == 'd' && "dart"@[1] == 'a');
    assert("cpp"@.len() == 3 && "cpp"@[0] == 'c' && "cpp"@[1] == 'p');
    assert("cc"@.len() == 2 && "cc"@[0] == 'c' && "cc"@[1] == 'c');
    assert("cxx"@.len() == 3 && "cxx"@[0] == 'c' && "cxx"@[1] == 'x');
    assert("h"@.len() == 1 && "h"@[0] == 'h');
    assert("hpp"@.len() == 3 && "hpp"@[0] == 'h' && "hpp"@[1] == 'p');
}

/// Law: the captured names are the names of the captures that took part in
/// their match, all of them and in order; a capture that took no part gives none.
pub proof fn lemma_captured_names(caps: Seq<Option<Seq<char>>>)
    ensures
        captured_names(caps) == caps.filter(|o: Option<Seq<char>>| o is Some).map_values(
            |o: Option<Seq<char>>| o->0,
        ),
    decreases caps.len(),
{
    reveal_with_fuel(Seq::<_>::filter, 1);
    if caps.len() > 0 {
        lemma_captured_names(caps.drop_last());
        let f = caps.filter(|o: Option<Seq<char>>| o is Some);
        let g = caps.drop_last().filter(|o: Option<Seq<char>>| o is Some);
        if caps.last() is Some {
            assert(f == g.push(caps.last()));
            assert(f.map_values(|o: Option<Seq<char>>| o->0) =~= g.map_values(|o: Option<Seq<char>>| o->0).push(
                caps.last()->0,
            ));
        } else {
            assert(f == g);
        }
    } else {
        assert(caps.filter(|o: Option<Seq<char>>| o is Some) =~= Seq::<Option<Seq<char>>>::empty());
    }
}

} // verus!
