use dockerops::document::{parse_document, Node};
use dockerops::images::{
    check_and_update_image, extract_images_from_yaml, manifest_url, parse_image_name, ImageCommand,
    Refresh,
};

fn parts(registry: &str, repository: &str, tag: &str) -> (String, String, String) {
    (registry.to_string(), repository.to_string(), tag.to_string())
}

fn images_of(source: &str) -> Vec<String> {
    let document = parse_document(source).unwrap();
    let mut images = Vec::new();
    extract_images_from_yaml(&document, &mut images);
    images
}

#[test]
fn single_word_image_is_in_the_library_namespace() {
    assert_eq!(parse_image_name("nginx"), parts("registry-1.docker.io", "library/nginx", "latest"));
}

#[test]
fn organization_image_keeps_its_path() {
    assert_eq!(parse_image_name("myorg/app:v2"), parts("registry-1.docker.io", "myorg/app", "v2"));
}

#[test]
fn custom_registry_is_split_off() {
    assert_eq!(
        parse_image_name("registry.example.com/team/app:v1"),
        parts("registry.example.com", "team/app", "v1")
    );
}

#[test]
fn single_word_image_with_tag() {
    assert_eq!(parse_image_name("redis:7"), parts("registry-1.docker.io", "library/redis", "7"));
}

#[test]
fn localhost_is_a_registry() {
    assert_eq!(parse_image_name("localhost/app"), parts("localhost", "app", "latest"));
}

#[test]
fn tag_is_what_follows_the_last_colon() {
    assert_eq!(
        parse_image_name("registry.example.com:5000/team/app:v1"),
        parts("registry.example.com:5000", "team/app", "v1")
    );
    assert_eq!(
        parse_image_name("localhost:5000/app:v1"),
        parts("registry-1.docker.io", "localhost:5000/app", "v1")
    );
    assert_eq!(parse_image_name("a:b:c"), parts("registry-1.docker.io", "library/a:b", "c"));
}

#[test]
fn every_colon_counts_also_one_before_a_port() {
    assert_eq!(
        parse_image_name("localhost:5000/app"),
        parts("registry-1.docker.io", "library/localhost", "5000/app")
    );
}

#[test]
fn default_registry_written_out_still_gets_the_library_namespace() {
    assert_eq!(
        parse_image_name("registry-1.docker.io/nginx"),
        parts("registry-1.docker.io", "library/nginx", "latest")
    );
}

#[test]
fn deep_path_on_custom_registry() {
    assert_eq!(parse_image_name("ghcr.io/a/b/c:1.0"), parts("ghcr.io", "a/b/c", "1.0"));
}

#[test]
fn empty_reference() {
    assert_eq!(parse_image_name(""), parts("registry-1.docker.io", "library/", "latest"));
}

#[test]
fn empty_tag_and_empty_path() {
    assert_eq!(parse_image_name("nginx:"), parts("registry-1.docker.io", "library/nginx", ""));
    assert_eq!(parse_image_name(":v1"), parts("registry-1.docker.io", "library/", "v1"));
}

#[test]
fn manifest_url_has_the_registry_api_shape() {
    assert_eq!(
        manifest_url("registry-1.docker.io", "library/nginx", "latest"),
        "https://registry-1.docker.io/v2/library/nginx/manifests/latest"
    );
}

#[test]
fn images_are_found_in_document_order_with_duplicates() {
    assert_eq!(
        images_of(
            "services:\n  web:\n    image: nginx:1.25\n  db:\n    image: postgres\n  web2:\n    image: nginx:1.25\n"
        ),
        vec!["nginx:1.25", "postgres", "nginx:1.25"]
    );
}

#[test]
fn images_are_found_inside_sequences() {
    assert_eq!(
        images_of("- image: a\n- - image: b\n  - other: {image: c}\n- plain\n"),
        vec!["a", "b", "c"]
    );
}

#[test]
fn empty_and_non_string_images_are_not_references() {
    assert_eq!(
        images_of("a:\n  image: ''\nb:\n  image: 42\nc:\n  image: [x]\nd:\n  image: real\n"),
        vec!["real"]
    );
}

#[test]
fn images_are_found_below_an_image_key_that_names_none() {
    assert_eq!(images_of("image:\n  image: inner\n"), vec!["inner"]);
    assert_eq!(images_of("image:\n  - image: a\n  - b:\n      image: c\n"), vec!["a", "c"]);
    assert_eq!(images_of("image:\n  image:\n    image: deep\n"), vec!["deep"]);
    assert_eq!(images_of("image: ''\n"), Vec::<String>::new());
}

#[test]
fn scalars_hold_no_images() {
    assert_eq!(images_of("image"), Vec::<String>::new());
    assert_eq!(images_of("42"), Vec::<String>::new());
}

#[test]
fn tagged_collections_are_not_searched_but_tagged_scalars_count() {
    assert_eq!(images_of("a: !t\n  image: hidden\n"), Vec::<String>::new());
    assert_eq!(images_of("image: !t shown\n"), vec!["shown"]);
    assert_eq!(images_of("!k image: keyed\n"), vec!["keyed"]);
}

#[test]
fn extraction_appends_to_what_is_there() {
    let mut images = vec!["before".to_string()];
    let document = Node::Mapping(vec![(
        Node::Text("image".to_string()),
        Node::Text("after".to_string()),
    )]);
    extract_images_from_yaml(&document, &mut images);
    assert_eq!(images, vec!["before", "after"]);
}

#[test]
fn differing_digests_mean_one_removal_then_one_pull() {
    let verdict = check_and_update_image(&Some("sha256:A".to_string()), &Some("sha256:B".to_string()));
    assert_eq!(verdict, Refresh::Replace);
    assert_eq!(verdict.commands(), vec![ImageCommand::Remove, ImageCommand::Pull]);
}

#[test]
fn equal_digests_mean_no_command() {
    let verdict = check_and_update_image(&Some("sha256:A".to_string()), &Some("sha256:A".to_string()));
    assert_eq!(verdict, Refresh::UpToDate);
    assert!(verdict.commands().is_empty());
}

#[test]
fn missing_image_is_pulled() {
    let with_remote = check_and_update_image(&None, &Some("sha256:B".to_string()));
    assert_eq!(with_remote, Refresh::Fetch);
    assert_eq!(with_remote.commands(), vec![ImageCommand::Pull]);
    let without_remote = check_and_update_image(&None, &None);
    assert_eq!(without_remote, Refresh::Fetch);
    assert_eq!(without_remote.commands(), vec![ImageCommand::Pull]);
}

#[test]
fn unknown_remote_leaves_a_local_image_alone() {
    let verdict = check_and_update_image(&Some("sha256:A".to_string()), &None);
    assert_eq!(verdict, Refresh::RemoteUnknown);
    assert!(verdict.commands().is_empty());
}
