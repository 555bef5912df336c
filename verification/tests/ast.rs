use banana::{DependencyGraph, PolyglotAstEngine, SymbolKind};

#[test]
fn test_polyglot_ast_extraction() {
    let rust_code = "pub async fn execute_task() {}\npub struct TaskConfig {}";
    let symbols = PolyglotAstEngine::extract_symbols(rust_code, "rs");
    assert_eq!(symbols.len(), 2);
    assert_eq!(symbols[0].name, "execute_task");
    assert_eq!(symbols[0].kind, SymbolKind::Function);
    assert_eq!(symbols[1].name, "TaskConfig");
    assert_eq!(symbols[1].kind, SymbolKind::Struct);

    let go_code = "func ProcessQueue() {}\ntype Job struct {}";
    let go_symbols = PolyglotAstEngine::extract_symbols(go_code, "go");
    assert_eq!(go_symbols.len(), 2);
    assert_eq!(go_symbols[0].name, "ProcessQueue");
    assert_eq!(go_symbols[1].name, "Job");

    let zig_code = "pub fn init() {}\npub const Server = struct {};";
    let zig_symbols = PolyglotAstEngine::extract_symbols(zig_code, "zig");
    assert_eq!(zig_symbols.len(), 2);
    assert_eq!(zig_symbols[0].name, "init");
    assert_eq!(zig_symbols[1].name, "Server");
}

#[test]
fn test_dependency_graph_cycle_detection() {
    let mut graph = DependencyGraph::new();
    let a = "a.rs".to_string();
    let b = "b.rs".to_string();
    let c = "c.rs".to_string();

    graph.add_dependency(a.clone(), b.clone());
    graph.add_dependency(b.clone(), c.clone());
    graph.add_dependency(c.clone(), a.clone());

    let cycles = graph.detect_cycles();
    assert!(!cycles.is_empty());
}

#[test]
fn symbols_are_listed_pattern_by_pattern() {
    let code = "pub struct A {}\nfn first() {}\nstruct B;\nasync fn second() {}";
    let symbols = PolyglotAstEngine::extract_symbols(code, "rs");
    let names: Vec<&str> = symbols.iter().map(|s| s.name.as_str()).collect();
    assert_eq!(names, vec!["first", "second", "A", "B"]);
    assert!(symbols.iter().all(|s| s.line == 1 && s.references.is_empty()));
}

#[test]
fn python_typescript_java_dart_and_cpp_symbols() {
    let py = PolyglotAstEngine::extract_symbols("def run():\n    pass\nclass Job:\n    pass", "py");
    assert_eq!(py.len(), 2);
    assert_eq!((py[0].name.as_str(), py[0].kind), ("run", SymbolKind::Function));
    assert_eq!((py[1].name.as_str(), py[1].kind), ("Job", SymbolKind::Class));

    let ts = "export async function load() {}\nexport interface Shape {}\nclass Circle {}";
    for ext in ["ts", "js"] {
        let syms = PolyglotAstEngine::extract_symbols(ts, ext);
        assert_eq!(syms.len(), 3);
        assert_eq!((syms[0].name.as_str(), syms[0].kind), ("load", SymbolKind::Function));
        assert_eq!((syms[1].name.as_str(), syms[1].kind), ("Shape", SymbolKind::Interface));
        assert_eq!((syms[2].name.as_str(), syms[2].kind), ("Circle", SymbolKind::Class));
    }

    let java = PolyglotAstEngine::extract_symbols("public final class App {}\npublic interface Api {}", "java");
    assert_eq!(java.len(), 2);
    assert_eq!((java[0].name.as_str(), java[0].kind), ("App", SymbolKind::Class));
    assert_eq!((java[1].name.as_str(), java[1].kind), ("Api", SymbolKind::Interface));

    let dart = PolyglotAstEngine::extract_symbols("abstract class Widget {}", "dart");
    assert_eq!(dart.len(), 1);
    assert_eq!(dart[0].name, "Widget");

    for ext in ["cpp", "cc", "cxx", "h", "hpp"] {
        let cpp = PolyglotAstEngine::extract_symbols("class Engine {};\nstruct Point {};", ext);
        assert_eq!(cpp.len(), 2);
        assert_eq!(cpp[0].name, "Engine");
        assert_eq!(cpp[1].name, "Point");
        assert!(cpp.iter().all(|s| s.kind == SymbolKind::Class));
    }
}

#[test]
fn unknown_extension_gives_no_symbols() {
    assert!(PolyglotAstEngine::extract_symbols("fn main() {}", "txt").is_empty());
    assert!(PolyglotAstEngine::extract_symbols("fn main() {}", "").is_empty());
}

#[test]
fn captures_that_took_no_part_are_skipped() {
    let caps = vec![Some("a".to_string()), None, Some("b".to_string())];
    let syms = PolyglotAstEngine::symbols_from_captures(&caps, SymbolKind::Module);
    assert_eq!(syms.len(), 2);
    assert_eq!(syms[0].name, "a");
    assert_eq!(syms[1].name, "b");
    assert!(syms.iter().all(|s| s.kind == SymbolKind::Module && s.line == 1));
}

#[test]
fn acyclic_graph_has_no_cycles() {
    let mut graph = DependencyGraph::new();
    graph.add_dependency("main.rs".to_string(), "lib.rs".to_string());
    graph.add_dependency("main.rs".to_string(), "util.rs".to_string());
    graph.add_dependency("lib.rs".to_string(), "util.rs".to_string());
    assert!(graph.detect_cycles().is_empty());
    assert!(DependencyGraph::new().detect_cycles().is_empty());
}

#[test]
fn cycle_paths_close_on_their_first_node() {
    let mut graph = DependencyGraph::new();
    graph.add_dependency("a.rs".to_string(), "b.rs".to_string());
    graph.add_dependency("b.rs".to_string(), "c.rs".to_string());
    graph.add_dependency("c.rs".to_string(), "a.rs".to_string());
    for cycle in graph.detect_cycles() {
        assert!(cycle.len() >= 2);
        assert_eq!(cycle.first(), cycle.last());
        for w in cycle.windows(2) {
            assert!(graph.get_dependencies(&w[0]).contains(&w[1]));
        }
    }

    let mut selfloop = DependencyGraph::new();
    selfloop.add_dependency("x.rs".to_string(), "x.rs".to_string());
    let cycles = selfloop.detect_cycles();
    assert_eq!(cycles, vec![vec!["x.rs".to_string(), "x.rs".to_string()]]);
}

#[test]
fn dependencies_are_listed_once() {
    let mut graph = DependencyGraph::new();
    graph.add_dependency("a.rs".to_string(), "b.rs".to_string());
    graph.add_dependency("a.rs".to_string(), "b.rs".to_string());
    graph.add_dependency("a.rs".to_string(), "c.rs".to_string());
    let mut deps = graph.get_dependencies("a.rs");
    deps.sort();
    assert_eq!(deps, vec!["b.rs".to_string(), "c.rs".to_string()]);
    assert!(graph.get_dependencies("b.rs").is_empty());
    assert!(graph.get_dependencies("zzz.rs").is_empty());
}

#[test]
fn a_three_file_cycle_is_reported_once() {
    let mut graph = DependencyGraph::new();
    graph.add_dependency("a.rs".to_string(), "b.rs".to_string());
    graph.add_dependency("b.rs".to_string(), "c.rs".to_string());
    graph.add_dependency("c.rs".to_string(), "a.rs".to_string());
    let cycles = graph.detect_cycles();
    assert_eq!(cycles.len(), 1);
    let rotations: Vec<Vec<&str>> = vec![
        vec!["a.rs", "b.rs", "c.rs", "a.rs"],
        vec!["b.rs", "c.rs", "a.rs", "b.rs"],
        vec!["c.rs", "a.rs", "b.rs", "c.rs"],
    ];
    let found: Vec<&str> = cycles[0].iter().map(|s| s.as_str()).collect();
    assert!(rotations.contains(&found));
}
