use next_api::action_id::action_id;
use next_api::actions::{action_table, assemble, collect_actions, ActionEntry};
use next_api::bytes::{bytes_eq, concat_bytes, copy_bytes};
use next_api::environment::Environment;
use next_api::extract::{scan, ServerAction};
use next_api::graph::build;
use next_api::source::{Export, Import, ImportKind, Project, SourceModule};

fn actions_module(location: &[u8], names: &[(&[u8], bool)]) -> SourceModule {
    SourceModule {
        location: location.to_vec(),
        condition: Environment::Shared,
        content: 0,
        directives: vec![Environment::Server],
        imports: vec![],
        exports: names.iter().map(|(n, a)| Export { name: n.to_vec(), action: *a, closure_args: 2 }).collect(),
    }
}

#[test]
fn action_id_has_the_expected_value() {
    assert_eq!(action_id(b"actions.ts", b"incrementCounter"), 0x8abfd7b8e9a8b163);
    assert_eq!(action_id(b"actions.ts", b"increment"), 0x20bb7e80ae555205);
    assert_eq!(action_id(b"", b""), 0xaf64724c8602eb6e);
}

#[test]
fn marked_export_appears_in_the_action_table_under_its_id() {
    let m = actions_module(b"actions.ts", &[(b"helper", false), (b"incrementCounter", true)]);
    let found = scan(&m);
    assert_eq!(
        found.actions,
        vec![ServerAction { id: action_id(b"actions.ts", b"incrementCounter"), export: 1, closure_args: 2 }]
    );
    let again = scan(&m);
    assert_eq!(again.actions, found.actions);
}

#[test]
fn renamed_export_leaves_the_table_and_the_new_name_enters() {
    let before = actions_module(b"actions.ts", &[(b"incrementCounter", true)]);
    let after = actions_module(b"actions.ts", &[(b"bumpCounter", true)]);
    let old_id = action_id(b"actions.ts", b"incrementCounter");
    let new_id = action_id(b"actions.ts", b"bumpCounter");
    assert_ne!(old_id, new_id);
    let ids_before: Vec<u64> = scan(&before).actions.iter().map(|a| a.id).collect();
    let ids_after: Vec<u64> = scan(&after).actions.iter().map(|a| a.id).collect();
    assert_eq!(ids_before, vec![old_id]);
    assert_eq!(ids_after, vec![new_id]);
}

#[test]
fn scan_lists_split_points_and_unanalyzable_references_in_source_order() {
    let m = SourceModule {
        location: b"m".to_vec(),
        condition: Environment::Shared,
        content: 0,
        directives: vec![],
        imports: vec![
            Import { kind: ImportKind::Static, specifier: Some(b"a".to_vec()), name: b"default".to_vec(), group: 0, priority: 0 },
            Import { kind: ImportKind::Dynamic, specifier: Some(b"b".to_vec()), name: b"default".to_vec(), group: 0, priority: 0 },
            Import { kind: ImportKind::Dynamic, specifier: None, name: b"default".to_vec(), group: 0, priority: 0 },
            Import { kind: ImportKind::Dynamic, specifier: Some(b"c".to_vec()), name: b"default".to_vec(), group: 0, priority: 0 },
            Import { kind: ImportKind::Asset, specifier: None, name: b"default".to_vec(), group: 0, priority: 0 },
        ],
        exports: vec![],
    };
    let found = scan(&m);
    assert_eq!(found.split_points, vec![1, 3]);
    assert_eq!(found.unanalyzable, vec![2, 4]);
    assert!(found.actions.is_empty());
}

#[test]
fn action_table_is_sorted_by_id_and_holds_each_action_once() {
    let mut root = actions_module(b"root", &[(b"zeta", true), (b"alpha", true), (b"plain", false)]);
    root.imports = vec![Import {
        kind: ImportKind::Static,
        specifier: Some(b"other".to_vec()),
        name: b"default".to_vec(), group: 0, priority: 0,
    }];
    let other = actions_module(b"other", &[(b"beta", true)]);
    let project = Project { modules: vec![root, other], extensions: vec![] };
    let g = build(&project, 0, Environment::Server);
    let all = collect_actions(&project, &g);
    assert_eq!(all.len(), 3);
    assert_eq!(all[0].export, 0);
    assert_eq!(all[2].module, 1);
    let table = action_table(&project, &g).unwrap();
    let mut ids = vec![action_id(b"root", b"zeta"), action_id(b"root", b"alpha"), action_id(b"other", b"beta")];
    ids.sort();
    assert_eq!(table.iter().map(|e| e.id).collect::<Vec<u64>>(), ids);
    for e in table.iter() {
        assert_eq!(e.closure_args, 2);
        assert_eq!(e.layer, Environment::Server);
    }
}

#[test]
fn two_actions_under_one_id_are_a_collision() {
    let first = actions_module(b"a\xffb", &[(b"c", true)]);
    let second = actions_module(b"a", &[(b"b\xffc", true)]);
    let project = Project { modules: vec![first, second], extensions: vec![] };
    let id = action_id(b"a\xffb", b"c");
    assert_eq!(id, action_id(b"a", b"b\xffc"));
    let all = vec![
        ActionEntry { id, module: 0, export: 0, closure_args: 2, layer: Environment::Server },
        ActionEntry { id, module: 1, export: 0, closure_args: 2, layer: Environment::Server },
    ];
    let collision = assemble(&project, &all).unwrap_err();
    assert_eq!(collision.id, id);
    assert_eq!(collision.first, all[0]);
    assert_eq!(collision.second, all[1]);
}

#[test]
fn same_action_met_twice_is_kept_once() {
    let first = actions_module(b"shared", &[(b"run", true)]);
    let second = actions_module(b"shared", &[(b"run", true)]);
    let project = Project { modules: vec![first, second], extensions: vec![] };
    let id = action_id(b"shared", b"run");
    let all = vec![
        ActionEntry { id, module: 0, export: 0, closure_args: 2, layer: Environment::Server },
        ActionEntry { id, module: 1, export: 0, closure_args: 2, layer: Environment::Server },
    ];
    let table = assemble(&project, &all).unwrap();
    assert_eq!(table, vec![all[0]]);
}

#[test]
fn byte_helpers_compare_copy_and_join() {
    assert!(bytes_eq(b"abc", b"abc"));
    assert!(!bytes_eq(b"abc", b"abd"));
    assert!(!bytes_eq(b"abc", b"ab"));
    assert_eq!(copy_bytes(b"xyz"), b"xyz".to_vec());
    assert_eq!(concat_bytes(b"x", b".ts"), b"x.ts".to_vec());
}
