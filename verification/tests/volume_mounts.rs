use dockerops::document::{parse_document, Node, YamlError};
use dockerops::volumes::{
    find_definition, find_missing_volume, join_path, plan_volume, process_binding_volume,
    process_compose_volumes, process_docker_volume, process_service_volumes,
    process_volumes_config, resolve_document, MirrorOutcome, NfsConfig, VolumeDefinition,
    VolumeError, VolumeStep, VolumeType,
};

fn text(s: &str) -> Node {
    Node::Text(s.to_string())
}

fn definition(id: &str, kind: VolumeType, path: &str) -> VolumeDefinition {
    VolumeDefinition { id: id.to_string(), kind, path: path.to_string(), resolved: true }
}

fn declared(id: &str, kind: VolumeType, path: &str) -> VolumeDefinition {
    VolumeDefinition::new(id.to_string(), kind, path.to_string())
}

fn mounts(entries: &[&str]) -> Node {
    Node::Sequence(entries.iter().map(|e| text(e)).collect())
}

#[test]
fn docker_volume_maps_to_itself() {
    let catalog = vec![definition("cache", VolumeType::Volume, "cache")];
    let mut volumes = mounts(&["cache:/data"]);
    let unknown = process_service_volumes(&mut volumes, &catalog);
    assert_eq!(volumes, mounts(&["cache:/data"]));
    assert!(unknown.is_empty());
}

#[test]
fn binding_becomes_its_mirrored_path() {
    let catalog = vec![definition("cache", VolumeType::Binding, "/mnt/mirror/cache")];
    let mut volumes = mounts(&["cache:/data"]);
    let unknown = process_service_volumes(&mut volumes, &catalog);
    assert_eq!(volumes, mounts(&["/mnt/mirror/cache:/data"]));
    assert!(unknown.is_empty());
}

#[test]
fn docker_volume_with_another_name_is_renamed() {
    let catalog = vec![definition("db", VolumeType::Volume, "postgres_data")];
    let mut volumes = mounts(&["db:/var/lib/postgresql/data"]);
    process_service_volumes(&mut volumes, &catalog);
    assert_eq!(volumes, mounts(&["postgres_data:/var/lib/postgresql/data"]));
}

#[test]
fn unknown_identifier_passes_through_with_a_warning() {
    let catalog = vec![definition("cache", VolumeType::Volume, "cache")];
    let mut volumes = mounts(&["logs:/var/log", "cache:/data", "tmp:/tmp"]);
    let unknown = process_service_volumes(&mut volumes, &catalog);
    assert_eq!(volumes, mounts(&["logs:/var/log", "cache:/data", "tmp:/tmp"]));
    assert_eq!(unknown, vec!["logs".to_string(), "tmp".to_string()]);
}

#[test]
fn entry_without_colon_is_left_alone() {
    let catalog = vec![definition("cache", VolumeType::Binding, "/mnt/cache")];
    let mut volumes = mounts(&["cache"]);
    let unknown = process_service_volumes(&mut volumes, &catalog);
    assert_eq!(volumes, mounts(&["cache"]));
    assert!(unknown.is_empty());
}

#[test]
fn entry_with_two_colons_is_left_alone() {
    let catalog = vec![definition("cache", VolumeType::Binding, "/mnt/cache")];
    let mut volumes = mounts(&["cache:/data:ro"]);
    let unknown = process_service_volumes(&mut volumes, &catalog);
    assert_eq!(volumes, mounts(&["cache:/data:ro"]));
    assert!(unknown.is_empty());
}

#[test]
fn entries_that_are_not_strings_are_left_alone() {
    let catalog = vec![definition("cache", VolumeType::Binding, "/mnt/cache")];
    let long_form = Node::Mapping(vec![(text("source"), text("cache")), (text("target"), text("/data"))]);
    let mut volumes = Node::Sequence(vec![
        Node::Mapping(vec![(text("source"), text("cache")), (text("target"), text("/data"))]),
        Node::Null,
        text("cache:/x"),
    ]);
    process_service_volumes(&mut volumes, &catalog);
    assert_eq!(volumes, Node::Sequence(vec![long_form, Node::Null, text("/mnt/cache:/x")]));
}

#[test]
fn volumes_that_are_no_sequence_are_left_alone() {
    let catalog = vec![definition("cache", VolumeType::Binding, "/mnt/cache")];
    let mut volumes = text("cache:/data");
    let unknown = process_service_volumes(&mut volumes, &catalog);
    assert_eq!(volumes, text("cache:/data"));
    assert!(unknown.is_empty());
}

#[test]
fn tagged_entry_is_resolved_and_loses_its_tag() {
    let catalog = vec![definition("cache", VolumeType::Binding, "/mnt/cache")];
    let tag = serde_yaml::value::Tag::new("mount");
    let mut volumes = Node::Sequence(vec![Node::Tagged(tag, Box::new(text("cache:/data")))]);
    process_service_volumes(&mut volumes, &catalog);
    assert_eq!(volumes, mounts(&["/mnt/cache:/data"]));
}

#[test]
fn first_catalog_entry_of_an_identifier_wins() {
    let catalog = vec![
        definition("other", VolumeType::Volume, "other"),
        definition("cache", VolumeType::Binding, "/first"),
        definition("cache", VolumeType::Binding, "/second"),
    ];
    assert_eq!(find_definition(&catalog, "cache"), 1);
    assert_eq!(find_definition(&catalog, "none"), 3);
    let mut volumes = mounts(&["cache:/data"]);
    process_service_volumes(&mut volumes, &catalog);
    assert_eq!(volumes, mounts(&["/first:/data"]));
}

#[test]
fn empty_identifier_is_looked_up_like_any_other() {
    let catalog = vec![definition("", VolumeType::Volume, "anonymous")];
    let mut volumes = mounts(&[":/data", "x:"]);
    let unknown = process_service_volumes(&mut volumes, &catalog);
    assert_eq!(volumes, mounts(&["anonymous:/data", "x:"]));
    assert_eq!(unknown, vec!["x".to_string()]);
}

#[test]
fn document_is_resolved_service_by_service() {
    let catalog = vec![
        definition("cache", VolumeType::Binding, "/mnt/mirror/cache"),
        definition("db", VolumeType::Volume, "pgdata"),
    ];
    let document = parse_document(
        "version: '3'\nservices:\n  web:\n    image: nginx\n    volumes:\n      - cache:/data\n      - nowhere:/x\n  db:\n    image: postgres\n    volumes:\n      - db:/var/lib/postgresql\n  worker:\n    image: busybox\n",
    )
    .unwrap();
    let (resolved, unknown) = resolve_document(document, &catalog);
    let expected = parse_document(
        "version: '3'\nservices:\n  web:\n    image: nginx\n    volumes:\n      - /mnt/mirror/cache:/data\n      - nowhere:/x\n  db:\n    image: postgres\n    volumes:\n      - pgdata:/var/lib/postgresql\n  worker:\n    image: busybox\n",
    )
    .unwrap();
    assert_eq!(resolved, expected);
    assert_eq!(unknown, vec!["nowhere".to_string()]);
}

#[test]
fn document_without_services_is_left_alone() {
    let catalog = vec![definition("cache", VolumeType::Binding, "/mnt/cache")];
    let document = parse_document("volumes:\n  - cache:/data\n").unwrap();
    let (resolved, unknown) = resolve_document(document, &catalog);
    assert_eq!(resolved, parse_document("volumes:\n  - cache:/data\n").unwrap());
    assert!(unknown.is_empty());
}

#[test]
fn only_the_volumes_of_services_are_resolved() {
    let catalog = vec![definition("cache", VolumeType::Binding, "/mnt/cache")];
    let source = "services:\n  web:\n    volumes: [cache:/a]\n    extra:\n      volumes: [cache:/b]\nvolumes: [cache:/c]\n";
    let (resolved, _) = resolve_document(parse_document(source).unwrap(), &catalog);
    let expected = parse_document(
        "services:\n  web:\n    volumes: [/mnt/cache:/a]\n    extra:\n      volumes: [cache:/b]\nvolumes: [cache:/c]\n",
    )
    .unwrap();
    assert_eq!(resolved, expected);
}

#[test]
fn resolution_looks_through_tags_on_sections() {
    let catalog = vec![definition("cache", VolumeType::Binding, "/mnt/cache")];
    let source = "services: !all\n  web: !one\n    volumes:\n      - cache:/a\n";
    let (resolved, _) = resolve_document(parse_document(source).unwrap(), &catalog);
    let expected =
        parse_document("services: !all\n  web: !one\n    volumes:\n      - /mnt/cache:/a\n").unwrap();
    assert_eq!(resolved, expected);
}

#[test]
fn compose_text_is_rewritten() {
    let catalog = vec![definition("cache", VolumeType::Binding, "/mnt/mirror/cache")];
    let (text, unknown) = process_compose_volumes(
        "services:\n  web:\n    image: nginx\n    volumes:\n      - cache:/data\n      - logs:/var/log\n",
        &catalog,
    )
    .unwrap();
    assert_eq!(
        text,
        "services:\n  web:\n    image: nginx\n    volumes:\n    - /mnt/mirror/cache:/data\n    - logs:/var/log\n"
    );
    assert_eq!(unknown, vec!["logs".to_string()]);
}

#[test]
fn compose_text_that_is_not_yaml_is_refused() {
    let catalog = vec![definition("cache", VolumeType::Binding, "/mnt/cache")];
    assert!(matches!(
        process_compose_volumes("services: [unclosed", &catalog),
        Err(YamlError::Parse(_))
    ));
}

#[test]
fn paths_are_joined_with_one_slash() {
    assert_eq!(join_path("/mnt/nfs", "cache"), "/mnt/nfs/cache");
    assert_eq!(join_path("/mnt/nfs/", "cache"), "/mnt/nfs/cache");
    assert_eq!(join_path("", "cache"), "cache");
    assert_eq!(join_path("/mnt/nfs", "/abs"), "/abs");
    assert_eq!(join_path("/mnt/nfs", ""), "/mnt/nfs/");
    assert_eq!(join_path("/", "x"), "/x");
}

#[test]
fn joined_paths_agree_with_std() {
    for (base, relative) in [("/mnt/nfs", "cache"), ("/a/", "b/c"), ("", "x"), ("/a", "/b"), ("a", "")] {
        let expected = std::path::Path::new(base).join(relative).to_string_lossy().to_string();
        assert_eq!(join_path(base, relative), expected);
    }
}

#[test]
fn catalog_steps_follow_kind_and_mirror_target() {
    let nfs = Some(NfsConfig { path: "/mnt/nfs".to_string() });
    let volume = definition("db", VolumeType::Volume, "pgdata");
    let binding = definition("conf", VolumeType::Binding, "config/app");
    assert_eq!(
        plan_volume(&volume, &nfs, "/tmp/repo"),
        VolumeStep::EnsureVolume { name: "pgdata".to_string() }
    );
    assert_eq!(
        plan_volume(&binding, &nfs, "/tmp/repo"),
        VolumeStep::Mirror {
            source: "/tmp/repo/config/app".to_string(),
            destination: "/mnt/nfs/conf".to_string()
        }
    );
    assert_eq!(plan_volume(&binding, &None, "/tmp/repo"), VolumeStep::SkipBinding);
    assert_eq!(
        plan_volume(&volume, &None, "/tmp/repo"),
        VolumeStep::EnsureVolume { name: "pgdata".to_string() }
    );
}

#[test]
fn catalog_plan_has_one_step_for_each_entry() {
    let catalog = vec![
        definition("db", VolumeType::Volume, "pgdata"),
        definition("conf", VolumeType::Binding, "config"),
    ];
    assert_eq!(
        process_volumes_config(&catalog, &None, "/r"),
        vec![VolumeStep::EnsureVolume { name: "pgdata".to_string() }, VolumeStep::SkipBinding]
    );
    assert!(process_volumes_config(&[], &None, "/r").is_empty());
}

#[test]
fn declared_entry_is_unresolved() {
    let entry = declared("conf", VolumeType::Binding, "assets/conf");
    assert_eq!(
        entry,
        VolumeDefinition {
            id: "conf".to_string(),
            kind: VolumeType::Binding,
            path: "assets/conf".to_string(),
            resolved: false
        }
    );
}

#[test]
fn binding_is_resolved_only_when_copied() {
    let nfs = NfsConfig { path: "/mnt/nfs".to_string() };
    let mut copied = declared("conf", VolumeType::Binding, "config/app");
    process_binding_volume(&mut copied, &nfs, MirrorOutcome::Copied);
    assert_eq!(copied, definition("conf", VolumeType::Binding, "/mnt/nfs/conf"));

    let mut missing = declared("conf", VolumeType::Binding, "config/app");
    process_binding_volume(&mut missing, &nfs, MirrorOutcome::SourceMissing);
    assert_eq!(missing, declared("conf", VolumeType::Binding, "config/app"));

    let mut failed = declared("conf", VolumeType::Binding, "config/app");
    process_binding_volume(&mut failed, &nfs, MirrorOutcome::Failed);
    assert_eq!(failed, declared("conf", VolumeType::Binding, "config/app"));

    let mut volume = declared("db", VolumeType::Volume, "pgdata");
    process_binding_volume(&mut volume, &nfs, MirrorOutcome::Copied);
    assert_eq!(volume, declared("db", VolumeType::Volume, "pgdata"));
}

#[test]
fn docker_volume_is_resolved_when_it_exists() {
    let mut volume = declared("db", VolumeType::Volume, "pgdata");
    assert_eq!(process_docker_volume(&mut volume, true), Ok(()));
    assert_eq!(volume, definition("db", VolumeType::Volume, "pgdata"));
}

#[test]
fn failed_volume_creation_is_an_error() {
    let mut volume = declared("db", VolumeType::Volume, "pgdata");
    assert_eq!(
        process_docker_volume(&mut volume, false),
        Err(VolumeError::CreationFailed { name: "pgdata".to_string() })
    );
    assert_eq!(volume, declared("db", VolumeType::Volume, "pgdata"));

    let mut binding = declared("conf", VolumeType::Binding, "config");
    assert_eq!(process_docker_volume(&mut binding, false), Ok(()));
    assert_eq!(process_docker_volume(&mut binding, true), Ok(()));
    assert_eq!(binding, declared("conf", VolumeType::Binding, "config"));
}

#[test]
fn first_docker_volume_that_is_not_ensured_is_missing() {
    let catalog = vec![
        declared("conf", VolumeType::Binding, "config"),
        definition("a", VolumeType::Volume, "vol_a"),
        declared("b", VolumeType::Volume, "vol_b"),
        declared("c", VolumeType::Volume, "vol_c"),
    ];
    assert_eq!(find_missing_volume(&catalog), Some("vol_b".to_string()));
    assert_eq!(find_missing_volume(&catalog[..2]), None);
    assert_eq!(find_missing_volume(&[]), None);
}

#[test]
fn unresolved_binding_leaves_the_mount_as_declared() {
    let catalog = vec![declared("conf", VolumeType::Binding, "assets/conf")];
    let mut volumes = mounts(&["conf:/etc/conf"]);
    let unknown = process_service_volumes(&mut volumes, &catalog);
    assert_eq!(volumes, mounts(&["conf:/etc/conf"]));
    assert!(unknown.is_empty());
}

#[test]
fn unresolved_entry_hides_a_later_entry_of_the_same_identifier() {
    let catalog = vec![
        declared("conf", VolumeType::Binding, "assets/conf"),
        definition("conf", VolumeType::Binding, "/mnt/nfs/conf"),
    ];
    let mut volumes = mounts(&["conf:/etc/conf"]);
    process_service_volumes(&mut volumes, &catalog);
    assert_eq!(volumes, mounts(&["conf:/etc/conf"]));
}

#[test]
fn document_stays_as_declared_against_an_unresolved_catalog() {
    let catalog = vec![declared("conf", VolumeType::Binding, "assets/conf")];
    let source = "services:\n  a:\n    image: nginx\n    volumes:\n      - conf:/etc/conf\n";
    let (resolved, unknown) = resolve_document(parse_document(source).unwrap(), &catalog);
    assert_eq!(resolved, parse_document(source).unwrap());
    assert!(unknown.is_empty());
    let (text, _) = process_compose_volumes(source, &catalog).unwrap();
    assert_eq!(text, "services:\n  a:\n    image: nginx\n    volumes:\n    - conf:/etc/conf\n");
}
