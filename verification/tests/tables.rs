use next_api::client_references::{client_reference_table, sort_references};
use next_api::environment::Environment;
use next_api::graph::{build, Link};
use next_api::source::{Import, ImportKind, Project, SourceModule};
use next_api::tables::{client_reference_id, collect_edges, split_point_hints, EdgeRef, Table};

fn named_import(specifier: &str, name: &str) -> Import {
    Import { kind: ImportKind::Static, specifier: Some(specifier.as_bytes().to_vec()), name: name.as_bytes().to_vec(), group: 0, priority: 0 }
}

fn source(location: &str, directives: Vec<Environment>, imports: Vec<Import>) -> SourceModule {
    SourceModule {
        location: location.as_bytes().to_vec(),
        condition: Environment::Shared,
        content: 0,
        directives,
        imports,
        exports: vec![],
    }
}

fn ui_project() -> Project {
    Project {
        modules: vec![
            source(
                "page",
                vec![],
                vec![
                    named_import("ui/Tabs", "Tabs"),
                    named_import("ui/Button", "default"),
                    named_import("helper", "default"),
                    named_import("ui/Button", "Icon"),
                ],
            ),
            source("ui/Tabs", vec![Environment::Client], vec![]),
            source("ui/Button", vec![Environment::Client], vec![]),
            source("helper", vec![], vec![named_import("ui/Button", "default")]),
            source("unused", vec![], vec![named_import("page", "default")]),
        ],
        extensions: vec![],
    }
}

#[test]
fn client_reference_table_is_sorted_by_identity_and_holds_each_once() {
    let project = ui_project();
    let g = build(&project, 0, Environment::Server);
    assert_eq!(g.nodes, vec![0, 3]);
    let listed = collect_edges(&g, Table::ClientReferences);
    assert_eq!(listed.len(), 4);
    let table = client_reference_table(&project, &g);
    let ids: Vec<(Vec<u8>, Vec<u8>)> =
        table.iter().map(|r| client_reference_id(&project, &g, r).unwrap()).collect();
    assert_eq!(
        ids,
        vec![
            (b"ui/Button".to_vec(), b"Icon".to_vec()),
            (b"ui/Button".to_vec(), b"default".to_vec()),
            (b"ui/Tabs".to_vec(), b"Tabs".to_vec()),
        ]
    );
    assert_eq!(table[1], EdgeRef { node: 0, import: 1, link: Link::Proxy { module: 2, environment: Environment::Client } });
    assert_eq!(sort_references(&project, &g, &listed), table);
    assert!(sort_references(&project, &g, &Vec::new()).is_empty());
}

#[test]
fn client_reference_id_is_none_for_an_edge_that_is_no_crossing() {
    let project = ui_project();
    let g = build(&project, 0, Environment::Server);
    let followed = EdgeRef { node: 0, import: 2, link: Link::Follow(3) };
    assert!(client_reference_id(&project, &g, &followed).is_none());
    let outside = EdgeRef { node: 9, import: 0, link: Link::Proxy { module: 1, environment: Environment::Client } };
    assert!(client_reference_id(&project, &g, &outside).is_none());
}

#[test]
fn change_to_a_module_outside_the_dependency_set_leaves_the_graph_as_it_was() {
    let before = ui_project();
    let mut after = ui_project();
    after.modules[4].imports = vec![named_import("helper", "default"), named_import("ui/Tabs", "Tabs")];
    after.modules[4].directives = vec![Environment::Client];
    let g = build(&before, 0, Environment::Server);
    let h = build(&after, 0, Environment::Server);
    assert_eq!(g.nodes, h.nodes);
    assert_eq!(g.edges, h.edges);
    let mut changed = ui_project();
    changed.modules[3].imports = vec![];
    let k = build(&changed, 0, Environment::Server);
    assert_eq!(k.nodes, g.nodes);
    assert_ne!(k.edges, g.edges);
}

#[test]
fn graph_carries_content_references_edge_kinds_and_split_point_hints() {
    let mut root = source("root", vec![], vec![named_import("lib", "default")]);
    root.content = 41;
    root.imports.push(Import {
        kind: ImportKind::Dynamic,
        specifier: Some(b"heavy".to_vec()),
        name: b"default".to_vec(),
        group: 7,
        priority: 3,
    });
    root.imports.push(Import {
        kind: ImportKind::Asset,
        specifier: Some(b"logo.png".to_vec()),
        name: b"default".to_vec(),
        group: 0,
        priority: 0,
    });
    let mut lib = source("lib", vec![], vec![]);
    lib.content = 42;
    let project = Project { modules: vec![root, lib, source("heavy", vec![], vec![])], extensions: vec![] };
    let g = build(&project, 0, Environment::Server);
    assert_eq!(g.nodes, vec![0, 1]);
    assert_eq!(g.contents, vec![41, 42]);
    assert_eq!(g.kinds, vec![vec![ImportKind::Static, ImportKind::Dynamic, ImportKind::Asset], vec![]]);
    assert_eq!(g.edges[0], vec![Link::Follow(1), Link::Deferred(2), Link::Unresolved]);
    let split = collect_edges(&g, Table::SplitPoints);
    assert_eq!(split.len(), 1);
    assert_eq!(split_point_hints(&project, &g, &split[0]), Some((7, 3)));
    let followed = EdgeRef { node: 0, import: 0, link: Link::Follow(1) };
    assert_eq!(split_point_hints(&project, &g, &followed), None);
}
