use next_api::entrypoints::{
    build_entrypoint, layout_chain, roots_in_project, synthesize, EntrypointKind, RouteDefinition,
};
use next_api::environment::{classify, Environment};
use next_api::graph::{build, step, Link, ModuleGraph};
use next_api::resolver::{find_module, resolve};
use next_api::route_order::{comes_before, depth, lex_before, route_order};
use next_api::split_points::{build_split_closure, build_split_points};
use next_api::source::{Export, Import, ImportKind, Project, SourceModule};
use next_api::diagnostics::{analyze, diagnostics, Diagnostic};
use next_api::entrypoints::analyze_entrypoint;
use next_api::tables::{client_reference_id, collect_edges, EdgeRef, Table};

fn import(kind: ImportKind, specifier: &str) -> Import {
    Import { kind, specifier: Some(specifier.as_bytes().to_vec()), name: b"default".to_vec(), group: 0, priority: 0 }
}

fn module(location: &str, directives: Vec<Environment>, imports: Vec<Import>) -> SourceModule {
    SourceModule {
        location: location.as_bytes().to_vec(),
        condition: Environment::Shared,
        content: 0,
        directives,
        imports,
        exports: Vec::<Export>::new(),
    }
}

fn page_project() -> Project {
    let mut db = module("lib/db", vec![], vec![]);
    db.condition = Environment::Server;
    Project {
        modules: vec![
            module(
                "app/page",
                vec![],
                vec![import(ImportKind::Static, "lib/db"), import(ImportKind::Static, "ui/Button")],
            ),
            db,
            module("ui/Button", vec![Environment::Client], vec![]),
        ],
        extensions: vec![],
    }
}

fn members(g: &ModuleGraph) -> Vec<usize> {
    let mut m = g.nodes.clone();
    m.sort();
    m
}

#[test]
fn server_graph_follows_server_module_and_proxies_client_module() {
    let project = page_project();
    let g = build(&project, 0, Environment::Server);
    assert_eq!(g.environment, Environment::Server);
    assert_eq!(g.nodes, vec![0, 1]);
    assert_eq!(
        g.edges,
        vec![vec![Link::Follow(1), Link::Proxy { module: 2, environment: Environment::Client }], vec![]]
    );
    let crossings = collect_edges(&g, Table::BoundaryCrossings);
    assert_eq!(
        crossings,
        vec![EdgeRef { node: 0, import: 1, link: Link::Proxy { module: 2, environment: Environment::Client } }]
    );
    let references = collect_edges(&g, Table::ClientReferences);
    assert_eq!(references, crossings);
    let id = client_reference_id(&project, &g, &references[0]).unwrap();
    assert_eq!(id, (b"ui/Button".to_vec(), b"default".to_vec()));
}

#[test]
fn client_graph_holds_client_module_directly() {
    let project = page_project();
    let g = build(&project, 0, Environment::Client);
    assert_eq!(g.nodes, vec![0, 2]);
    assert_eq!(g.edges, vec![vec![Link::Unresolved, Link::Follow(2)], vec![]]);
    assert!(collect_edges(&g, Table::ClientReferences).is_empty());
    assert_eq!(
        collect_edges(&g, Table::Unresolved),
        vec![EdgeRef { node: 0, import: 0, link: Link::Unresolved }]
    );
    let direct = build(&project, 2, Environment::Client);
    assert_eq!(direct.nodes, vec![2]);
}

#[test]
fn page_definition_yields_server_and_client_entrypoints_with_their_graphs() {
    let project = page_project();
    let defs = vec![RouteDefinition { kind: EntrypointKind::PageRoot, pattern: b"/".to_vec(), module: 0 }];
    let entrypoints = synthesize(&defs).entrypoints;
    assert_eq!(entrypoints.len(), 2);
    assert_eq!(entrypoints[0].environment, Environment::Server);
    assert_eq!(entrypoints[1].environment, Environment::Client);
    let server = build_entrypoint(&project, &entrypoints[0]);
    let client = build_entrypoint(&project, &entrypoints[1]);
    assert_eq!(server.len(), 1);
    assert_eq!(client.len(), 1);
    assert_eq!(server[0].nodes, vec![0, 1]);
    assert_eq!(client[0].nodes, vec![0, 2]);
}

#[test]
fn deferred_load_becomes_split_point_with_its_own_graph() {
    let project = Project {
        modules: vec![
            module(
                "Widget",
                vec![Environment::Client],
                vec![import(ImportKind::Dynamic, "./Heavy"), import(ImportKind::Static, "./light")],
            ),
            module("./Heavy", vec![], vec![import(ImportKind::Static, "./dep")]),
            module("./dep", vec![], vec![]),
            module("./light", vec![], vec![]),
        ],
        extensions: vec![],
    };
    let g = build(&project, 0, Environment::Client);
    assert_eq!(g.nodes, vec![0, 3]);
    assert!(!g.nodes.contains(&1));
    assert!(!g.nodes.contains(&2));
    assert_eq!(g.edges[0], vec![Link::Deferred(1), Link::Follow(3)]);
    let split = collect_edges(&g, Table::SplitPoints);
    assert_eq!(split, vec![EdgeRef { node: 0, import: 0, link: Link::Deferred(1) }]);
    let subs = build_split_points(&project, &g);
    assert_eq!(subs.len(), 1);
    assert_eq!(subs[0].environment, Environment::Client);
    assert_eq!(subs[0].nodes, vec![1, 2]);
    assert_eq!(subs[0].edges, vec![vec![Link::Follow(2)], vec![]]);
}

#[test]
fn cycle_is_kept_and_each_module_is_visited_once() {
    let project = Project {
        modules: vec![
            module("a", vec![], vec![import(ImportKind::Static, "b")]),
            module("b", vec![], vec![import(ImportKind::ReExport, "c"), import(ImportKind::Static, "a")]),
            module("c", vec![], vec![import(ImportKind::Static, "c"), import(ImportKind::Static, "a")]),
        ],
        extensions: vec![],
    };
    let g = build(&project, 0, Environment::Server);
    assert_eq!(g.nodes, vec![0, 1, 2]);
    assert_eq!(
        g.edges,
        vec![
            vec![Link::Follow(1)],
            vec![Link::Follow(2), Link::Follow(0)],
            vec![Link::Follow(2), Link::Follow(0)],
        ]
    );
    assert_eq!(
        diagnostics(&project, &g),
        vec![
            Diagnostic::CycleNotice { node: 0, import: 0 },
            Diagnostic::CycleNotice { node: 1, import: 0 },
            Diagnostic::CycleNotice { node: 1, import: 1 },
            Diagnostic::CycleNotice { node: 2, import: 0 },
            Diagnostic::CycleNotice { node: 2, import: 1 },
        ]
    );
}

#[test]
fn cycle_notice_marks_only_the_edges_that_lead_back() {
    let project = Project {
        modules: vec![
            module("root", vec![], vec![import(ImportKind::Static, "x"), import(ImportKind::Static, "y")]),
            module("x", vec![], vec![import(ImportKind::Static, "z")]),
            module("y", vec![], vec![import(ImportKind::Static, "z"), import(ImportKind::Static, "y2")]),
            module("z", vec![], vec![]),
            module("y2", vec![], vec![import(ImportKind::Static, "y")]),
        ],
        extensions: vec![],
    };
    let g = build(&project, 0, Environment::Server);
    assert_eq!(g.nodes, vec![0, 1, 2, 3, 4]);
    assert_eq!(
        diagnostics(&project, &g),
        vec![Diagnostic::CycleNotice { node: 2, import: 1 }, Diagnostic::CycleNotice { node: 4, import: 0 }]
    );
}

#[test]
fn two_builds_of_one_root_have_the_same_members() {
    let project = page_project();
    let first = build(&project, 0, Environment::Server);
    let second = build(&project, 0, Environment::Server);
    assert_eq!(members(&first), members(&second));
    assert_eq!(first.edges, second.edges);
}

#[test]
fn no_node_but_the_root_asks_for_another_environment() {
    let project = Project {
        modules: vec![
            module("root", vec![], vec![import(ImportKind::Static, "s"), import(ImportKind::Static, "n")]),
            module("s", vec![Environment::Server], vec![import(ImportKind::Static, "n")]),
            module("n", vec![], vec![import(ImportKind::Static, "s")]),
        ],
        extensions: vec![],
    };
    let g = build(&project, 0, Environment::Client);
    assert_eq!(g.nodes, vec![0, 2]);
    for row in g.edges.iter() {
        for link in row.iter() {
            assert_ne!(*link, Link::Follow(1));
        }
    }
    assert_eq!(g.edges[1], vec![Link::Proxy { module: 1, environment: Environment::Server }]);
}

#[test]
fn unanalyzable_specifier_is_left_out_with_a_diagnostic() {
    let project = Project {
        modules: vec![
            SourceModule {
                location: b"m".to_vec(),
                condition: Environment::Shared,
        content: 0,
                directives: vec![],
                imports: vec![
                    Import { kind: ImportKind::Dynamic, specifier: None, name: b"default".to_vec(), group: 0, priority: 0 },
                    import(ImportKind::Asset, "missing.png"),
                ],
                exports: vec![],
            },
        ],
        extensions: vec![],
    };
    let g = build(&project, 0, Environment::Server);
    assert_eq!(g.nodes, vec![0]);
    assert_eq!(g.edges, vec![vec![Link::Unanalyzable, Link::Unresolved]]);
    assert_eq!(step(&project, Environment::Server, 0, 0), Link::Unanalyzable);
    assert_eq!(
        collect_edges(&g, Table::Unanalyzable),
        vec![EdgeRef { node: 0, import: 0, link: Link::Unanalyzable }]
    );
    assert!(collect_edges(&g, Table::SplitPoints).is_empty());
}

#[test]
fn resolution_probes_the_specifier_then_each_extension_in_order() {
    let project = Project {
        modules: vec![module("x.tsx", vec![], vec![]), module("x.ts", vec![], vec![]), module("y", vec![], vec![])],
        extensions: vec![b".ts".to_vec(), b".tsx".to_vec()],
    };
    assert_eq!(resolve(&project, b"x", Environment::Server), Some(1));
    assert_eq!(resolve(&project, b"x.tsx", Environment::Server), Some(0));
    assert_eq!(resolve(&project, b"y", Environment::Client), Some(2));
    assert_eq!(resolve(&project, b"z", Environment::Client), None);
    assert_eq!(find_module(&project, b"x", Environment::Server), None);
}

#[test]
fn resolution_picks_the_file_whose_condition_admits_the_importer() {
    let mut server = module("lib/env", vec![], vec![]);
    server.condition = Environment::Server;
    let mut browser = module("lib/env", vec![], vec![]);
    browser.condition = Environment::Client;
    let project = Project { modules: vec![server, browser], extensions: vec![] };
    assert_eq!(resolve(&project, b"lib/env", Environment::Server), Some(0));
    assert_eq!(resolve(&project, b"lib/env", Environment::Client), Some(1));
    assert_eq!(resolve(&project, b"lib/env", Environment::Shared), None);
}

#[test]
fn directive_beats_inherited_tag_beats_default() {
    let v = classify(&[Environment::Client], Some(Environment::Server));
    assert_eq!(v.environment, Environment::Client);
    assert!(!v.conflict);
    let v = classify(&[], Some(Environment::Server));
    assert_eq!(v.environment, Environment::Server);
    let v = classify(&[], None);
    assert_eq!(v.environment, Environment::Shared);
    assert!(!v.conflict);
}

#[test]
fn contradictory_directives_are_reported_and_the_first_wins() {
    let v = classify(&[Environment::Server, Environment::Server, Environment::Client], None);
    assert_eq!(v.environment, Environment::Server);
    assert!(v.conflict);
    let v = classify(&[Environment::Client, Environment::Client], None);
    assert!(!v.conflict);
    let project = Project {
        modules: vec![
            module("a", vec![], vec![import(ImportKind::Static, "b")]),
            module("b", vec![Environment::Server, Environment::Client], vec![]),
        ],
        extensions: vec![],
    };
    let g = build(&project, 0, Environment::Server);
    assert_eq!(g.nodes, vec![0, 1]);
    assert_eq!(diagnostics(&project, &g), vec![Diagnostic::ClassificationConflict { node: 1 }]);
}

#[test]
fn diagnostics_are_attached_to_their_node_or_edge_and_do_not_stop_the_analysis() {
    let mut root = module(
        "root",
        vec![Environment::Server, Environment::Client],
        vec![
            import(ImportKind::Static, "gone"),
            import(ImportKind::Static, "kept"),
            import(ImportKind::Dynamic, "kept"),
        ],
    );
    root.imports.push(Import { kind: ImportKind::Dynamic, specifier: None, name: b"default".to_vec(), group: 0, priority: 0 });
    root.exports = vec![Export { name: b"save".to_vec(), action: true, closure_args: 1 }];
    let project = Project { modules: vec![root, module("kept", vec![], vec![])], extensions: vec![] };
    let a = analyze(&project, 0, Environment::Server);
    assert_eq!(a.graph.nodes, vec![0, 1]);
    assert_eq!(
        a.diagnostics,
        vec![
            Diagnostic::ClassificationConflict { node: 0 },
            Diagnostic::ResolutionError { node: 0, import: 0 },
            Diagnostic::DynamicSpecifierUnanalyzable { node: 0, import: 3 },
        ]
    );
    assert_eq!(a.split_points, vec![EdgeRef { node: 0, import: 2, link: Link::Deferred(1) }]);
    assert!(a.client_references.is_empty());
    let actions = a.actions.unwrap();
    assert_eq!(actions.len(), 1);
    assert_eq!(actions[0].id, next_api::action_id::action_id(b"root", b"save"));
    assert_eq!(actions[0].closure_args, 1);
}

#[test]
fn collision_fails_its_entrypoint_and_leaves_the_sibling_alone() {
    let mut first = module("first", vec![], vec![]);
    first.location = b"a\xffb".to_vec();
    first.exports = vec![Export { name: b"c".to_vec(), action: true, closure_args: 0 }];
    let mut second = module("second", vec![], vec![]);
    second.location = b"a".to_vec();
    second.exports = vec![Export { name: b"b\xffc".to_vec(), action: true, closure_args: 0 }];
    let mut link = module("link", vec![], vec![]);
    link.imports = vec![
        Import { kind: ImportKind::Static, specifier: Some(b"a\xffb".to_vec()), name: b"default".to_vec(), group: 0, priority: 0 },
        Import { kind: ImportKind::Static, specifier: Some(b"a".to_vec()), name: b"default".to_vec(), group: 0, priority: 0 },
    ];
    let project = Project { modules: vec![first, second, link], extensions: vec![] };
    let defs = vec![
        RouteDefinition { kind: EntrypointKind::RouteHandlerRoot, pattern: b"/bad".to_vec(), module: 2 },
        RouteDefinition { kind: EntrypointKind::RouteHandlerRoot, pattern: b"/good".to_vec(), module: 1 },
    ];
    let tree = synthesize(&defs);
    assert_eq!(tree.order, vec![0, 1]);
    let bad = analyze_entrypoint(&project, &tree.entrypoints[0]);
    let collision = match bad {
        Err(c) => c,
        Ok(_) => panic!("a collision was expected"),
    };
    assert_eq!(collision.id, next_api::action_id::action_id(b"a", b"b\xffc"));
    assert_ne!(collision.first.module, collision.second.module);
    let good = match analyze_entrypoint(&project, &tree.entrypoints[1]) {
        Ok(v) => v,
        Err(_) => panic!("the sibling has no collision"),
    };
    assert_eq!(good.len(), 1);
    assert_eq!(good[0].graph.nodes, vec![1]);
    assert_eq!(good[0].actions.as_ref().map(|t| t.len()), Ok(1));
}

#[test]
fn route_inherits_its_chain_of_layouts_outermost_first() {
    let defs = vec![
        RouteDefinition { kind: EntrypointKind::LayoutRoot, pattern: b"/blog".to_vec(), module: 1 },
        RouteDefinition { kind: EntrypointKind::LayoutRoot, pattern: b"/".to_vec(), module: 0 },
        RouteDefinition { kind: EntrypointKind::PageRoot, pattern: b"/blog/post".to_vec(), module: 2 },
        RouteDefinition { kind: EntrypointKind::RouteHandlerRoot, pattern: b"/api/x".to_vec(), module: 3 },
        RouteDefinition { kind: EntrypointKind::MiddlewareRoot, pattern: b"/".to_vec(), module: 4 },
        RouteDefinition { kind: EntrypointKind::InstrumentationRoot, pattern: b"".to_vec(), module: 5 },
        RouteDefinition { kind: EntrypointKind::LayoutRoot, pattern: b"/blog".to_vec(), module: 6 },
        RouteDefinition { kind: EntrypointKind::PageRoot, pattern: b"/blogroll".to_vec(), module: 7 },
    ];
    let tree = synthesize(&defs);
    assert_eq!(tree.order, vec![5, 1, 4, 0, 6, 7, 3, 2]);
    let e = tree.entrypoints;
    let got: Vec<(usize, Environment, Vec<usize>)> =
        e.iter().map(|x| (x.definition, x.environment, x.roots.clone())).collect();
    assert_eq!(
        got,
        vec![
            (5, Environment::Server, vec![5]),
            (1, Environment::Server, vec![0]),
            (1, Environment::Client, vec![0]),
            (4, Environment::Server, vec![4]),
            (0, Environment::Server, vec![1, 0]),
            (0, Environment::Client, vec![1, 0]),
            (6, Environment::Server, vec![6, 0]),
            (6, Environment::Client, vec![6, 0]),
            (7, Environment::Server, vec![7, 0]),
            (7, Environment::Client, vec![7, 0]),
            (3, Environment::Server, vec![3, 0]),
            (2, Environment::Server, vec![2, 0, 1]),
            (2, Environment::Client, vec![2, 0, 1]),
        ]
    );
    assert_eq!(e[12].kind, EntrypointKind::PageRoot);
    assert_eq!(e[12].pattern, b"/blog/post".to_vec());
    assert_eq!(e[10].kind, EntrypointKind::RouteHandlerRoot);
}

#[test]
fn route_tree_orders_by_depth_then_lexically() {
    assert_eq!(depth(b""), 0);
    assert_eq!(depth(b"/"), 0);
    assert_eq!(depth(b"/a"), 1);
    assert_eq!(depth(b"/a/"), 1);
    assert_eq!(depth(b"/a//b"), 2);
    assert_eq!(depth(b"a/b/c"), 3);
    assert!(lex_before(b"/a", b"/b"));
    assert!(lex_before(b"/a", b"/ab"));
    assert!(!lex_before(b"/ab", b"/a"));
    assert!(!lex_before(b"/a", b"/a"));
    assert!(lex_before(b"", b"/"));
    let defs = vec![
        RouteDefinition { kind: EntrypointKind::PageRoot, pattern: b"/z".to_vec(), module: 0 },
        RouteDefinition { kind: EntrypointKind::PageRoot, pattern: b"/a/b".to_vec(), module: 1 },
        RouteDefinition { kind: EntrypointKind::PageRoot, pattern: b"/a".to_vec(), module: 2 },
        RouteDefinition { kind: EntrypointKind::PageRoot, pattern: b"/".to_vec(), module: 3 },
    ];
    assert_eq!(route_order(&defs), vec![3, 2, 0, 1]);
    assert!(comes_before(&defs, 2, 0));
    assert!(!comes_before(&defs, 1, 0));
}

#[test]
fn split_point_closure_builds_each_deferred_module_once() {
    let project = Project {
        modules: vec![
            module("root", vec![], vec![import(ImportKind::Dynamic, "a"), import(ImportKind::Dynamic, "b")]),
            module("a", vec![], vec![import(ImportKind::Dynamic, "b"), import(ImportKind::Dynamic, "c")]),
            module("b", vec![], vec![import(ImportKind::Static, "d")]),
            module("c", vec![], vec![import(ImportKind::Dynamic, "a")]),
            module("d", vec![], vec![]),
            module("e", vec![], vec![import(ImportKind::Dynamic, "d")]),
        ],
        extensions: vec![],
    };
    let g = build(&project, 0, Environment::Client);
    assert_eq!(g.nodes, vec![0]);
    let subs = build_split_closure(&project, &g);
    let roots: Vec<usize> = subs.iter().map(|s| s.nodes[0]).collect();
    assert_eq!(roots, vec![1, 2, 3]);
    assert_eq!(subs[0].nodes, vec![1]);
    assert_eq!(subs[1].nodes, vec![2, 4]);
    assert_eq!(subs[2].nodes, vec![3]);
    assert_eq!(subs[2].edges, vec![vec![Link::Deferred(1)]]);
    for s in subs.iter() {
        assert_eq!(s.environment, Environment::Client);
    }
    let leaf = build(&project, 4, Environment::Client);
    assert!(build_split_closure(&project, &leaf).is_empty());
}

#[test]
fn longer_pattern_wins_a_conflict_of_layouts_at_one_depth() {
    let defs = vec![
        RouteDefinition { kind: EntrypointKind::LayoutRoot, pattern: b"/a/".to_vec(), module: 10 },
        RouteDefinition { kind: EntrypointKind::LayoutRoot, pattern: b"/a".to_vec(), module: 11 },
        RouteDefinition { kind: EntrypointKind::LayoutRoot, pattern: b"".to_vec(), module: 12 },
        RouteDefinition { kind: EntrypointKind::LayoutRoot, pattern: b"/".to_vec(), module: 13 },
        RouteDefinition { kind: EntrypointKind::PageRoot, pattern: b"/a/b".to_vec(), module: 14 },
        RouteDefinition { kind: EntrypointKind::PageRoot, pattern: b"/a".to_vec(), module: 15 },
    ];
    assert_eq!(layout_chain(&defs, 4), vec![3, 0]);
    assert_eq!(layout_chain(&defs, 5), vec![3, 1]);
    assert_eq!(layout_chain(&defs, 0), vec![3, 1]);
    assert_eq!(layout_chain(&defs, 3), vec![2]);
    assert!(layout_chain(&defs, 2).is_empty());
}

#[test]
fn deferred_load_of_a_module_of_another_environment_ends_in_a_proxy() {
    let project = Project {
        modules: vec![
            module("widget", vec![Environment::Client], vec![import(ImportKind::Dynamic, "secret")]),
            module("secret", vec![Environment::Server, Environment::Client], vec![import(ImportKind::Static, "db")]),
            module("db", vec![], vec![]),
        ],
        extensions: vec![],
    };
    let g = build(&project, 0, Environment::Client);
    assert_eq!(g.nodes, vec![0]);
    assert_eq!(g.edges, vec![vec![Link::Proxy { module: 1, environment: Environment::Server }]]);
    assert!(collect_edges(&g, Table::SplitPoints).is_empty());
    assert!(build_split_closure(&project, &g).is_empty());
    assert!(build_split_points(&project, &g).is_empty());
    assert_eq!(
        diagnostics(&project, &g),
        vec![Diagnostic::TargetClassificationConflict { node: 0, import: 0 }]
    );
}

#[test]
fn roots_outside_the_project_are_found_before_a_build() {
    let project = page_project();
    let defs = vec![
        RouteDefinition { kind: EntrypointKind::RouteHandlerRoot, pattern: b"/in".to_vec(), module: 2 },
        RouteDefinition { kind: EntrypointKind::RouteHandlerRoot, pattern: b"/out".to_vec(), module: 3 },
    ];
    let tree = synthesize(&defs);
    assert!(roots_in_project(&project, &tree.entrypoints[0]));
    assert!(!roots_in_project(&project, &tree.entrypoints[1]));
}
