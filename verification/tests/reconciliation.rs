use dockerops::document::YamlError;
use dockerops::fingerprint::calculate_md5;
use dockerops::ledger::{Image, ImageTable, SweepStep};
use dockerops::reconcile::{
    compose_file_names, select_compose_file, Accounting, Pass, SkipReason, StackAction,
    StackCommand, StackDefinition, StackOutcome, StackPlan, StackSource,
};
use dockerops::stacks::{Stack, StackStatus, StackTable};
use dockerops::volumes::{VolumeDefinition, VolumeType};

const ORIGIN: &str = "https://github.com/acme/stacks";
const WEB: &str = "services:\n  web:\n    image: nginx:1.25\n";
const WEB_CHANGED: &str = "services:\n  web:\n    image: nginx:1.26\n";

fn declared(name: &str) -> StackDefinition {
    StackDefinition { name: name.to_string() }
}

fn compose(content: &str) -> StackSource {
    StackSource::Compose { file_name: "docker-compose.yml".to_string(), content: content.to_string() }
}

fn begin(is_reconcile: bool, stacks: StackTable, images: ImageTable) -> Pass {
    Pass::begin(ORIGIN.to_string(), is_reconcile, None, stacks, images)
}

fn planned(outcome: StackOutcome) -> StackPlan {
    match outcome {
        StackOutcome::Planned(plan) => plan,
        other => panic!("expected a plan, got {:?}", other),
    }
}

fn record(name: &str, content: &str, status: StackStatus) -> Stack {
    Stack {
        name: name.to_string(),
        repository_url: ORIGIN.to_string(),
        compose_path: format!("{}/docker-compose.yml", name),
        hash: calculate_md5(content),
        status,
    }
}

#[test]
fn compose_candidates_in_order_of_precedence() {
    assert_eq!(
        compose_file_names(),
        vec!["docker-compose.yml", "docker-compose.yaml", "compose.yml", "compose.yaml"]
    );
}

#[test]
fn first_present_candidate_wins() {
    assert_eq!(select_compose_file(&[true, true, true, true]), Some(0));
    assert_eq!(select_compose_file(&[false, true, false, true]), Some(1));
    assert_eq!(select_compose_file(&[false, false, false, true]), Some(3));
    assert_eq!(select_compose_file(&[false, false, false, false]), None);
    assert_eq!(select_compose_file(&[]), None);
}

#[test]
fn new_stack_is_created_and_deployed() {
    let mut pass = begin(false, StackTable::new(), ImageTable::new());
    let plan = planned(pass.process_stack(&declared("web"), compose(WEB)));
    assert_eq!(plan.name, "web");
    assert_eq!(plan.compose_path, "web/docker-compose.yml");
    assert_eq!(plan.content, WEB);
    assert_eq!(plan.hash, calculate_md5(WEB));
    assert_eq!(plan.action, StackAction::Create);
    assert_eq!(plan.action.commands(), vec![StackCommand::Deploy]);
    assert!(plan.unknown_volumes.is_empty());

    assert_eq!(pass.complete_stack(&plan, true), Accounting::Counted(vec!["nginx:1.25".to_string()]));
    let (sweep, stacks, images) = pass.finish();
    assert_eq!(stacks.get_all_stacks(), vec![record("web", WEB, StackStatus::Deployed)]);
    assert_eq!(sweep, vec![("nginx:1.25".to_string(), SweepStep::Check)]);
    assert_eq!(images.get_all_images(), vec![Image::new("nginx:1.25".to_string(), 1)]);
}

#[test]
fn new_stack_is_pending_until_its_deployment_is_confirmed() {
    let mut pass = begin(false, StackTable::new(), ImageTable::new());
    planned(pass.process_stack(&declared("web"), compose(WEB)));
    let (_, stacks, _) = pass.finish();
    assert_eq!(stacks.get_all_stacks(), vec![record("web", WEB, StackStatus::Pending)]);
}

#[test]
fn second_pass_over_unchanged_content_deploys_nothing() {
    let mut first = begin(false, StackTable::new(), ImageTable::new());
    let mut deployments = 0;
    for name in ["web", "api"] {
        let plan = planned(first.process_stack(&declared(name), compose(WEB)));
        deployments += plan.action.commands().iter().filter(|c| **c == StackCommand::Deploy).count();
        first.complete_stack(&plan, true);
    }
    assert_eq!(deployments, 2);
    let (_, stacks, images) = first.finish();

    for is_reconcile in [false, true] {
        let mut table = StackTable::new();
        for stack in stacks.get_all_stacks() {
            table.create_stack(stack);
        }
        let mut ledger = ImageTable::new();
        for image in images.get_all_images() {
            ledger.create_image(image);
        }
        let mut second = begin(is_reconcile, table, ledger);
        for name in ["web", "api"] {
            let plan = planned(second.process_stack(&declared(name), compose(WEB)));
            assert_eq!(plan.action, StackAction::Unchanged);
            assert!(plan.action.commands().is_empty());
            second.complete_stack(&plan, false);
        }
        let (sweep, after, ledger) = second.finish();
        assert_eq!(after.get_all_stacks(), stacks.get_all_stacks());
        assert_eq!(sweep, vec![("nginx:1.25".to_string(), SweepStep::Check)]);
        assert_eq!(ledger.get_all_images(), vec![Image::new("nginx:1.25".to_string(), 2)]);
    }
}

#[test]
fn failed_deployment_is_not_tried_again_for_the_same_content() {
    let mut first = begin(false, StackTable::new(), ImageTable::new());
    let plan = planned(first.process_stack(&declared("web"), compose(WEB)));
    assert_eq!(first.complete_stack(&plan, false), Accounting::Counted(vec!["nginx:1.25".to_string()]));
    let (sweep, stacks, images) = first.finish();
    assert_eq!(sweep, vec![("nginx:1.25".to_string(), SweepStep::Check)]);
    assert_eq!(images.get_all_images(), vec![Image::new("nginx:1.25".to_string(), 1)]);
    assert_eq!(stacks.get_all_stacks(), vec![record("web", WEB, StackStatus::Pending)]);

    let mut second = begin(false, stacks, images);
    let plan = planned(second.process_stack(&declared("web"), compose(WEB)));
    assert_eq!(plan.action, StackAction::Unchanged);
}

#[test]
fn changed_stack_is_updated_without_stop_on_watch() {
    let mut stacks = StackTable::new();
    stacks.create_stack(record("web", WEB, StackStatus::Deployed));
    let mut pass = begin(false, stacks, ImageTable::new());
    let plan = planned(pass.process_stack(&declared("web"), compose(WEB_CHANGED)));
    assert_eq!(plan.action, StackAction::Update { stop_first: false });
    assert_eq!(plan.action.commands(), vec![StackCommand::Deploy]);
    pass.complete_stack(&plan, true);
    let (_, stacks, _) = pass.finish();
    assert_eq!(stacks.get_all_stacks(), vec![record("web", WEB_CHANGED, StackStatus::Deployed)]);
}

#[test]
fn changed_stack_is_stopped_first_on_reconcile() {
    let mut stacks = StackTable::new();
    stacks.create_stack(record("web", WEB, StackStatus::Deployed));
    let mut pass = begin(true, stacks, ImageTable::new());
    let plan = planned(pass.process_stack(&declared("web"), compose(WEB_CHANGED)));
    assert_eq!(plan.action, StackAction::Update { stop_first: true });
    assert_eq!(plan.action.commands(), vec![StackCommand::Remove, StackCommand::Deploy]);
}

#[test]
fn update_changes_the_fingerprint_and_nothing_else_until_confirmed() {
    let mut stacks = StackTable::new();
    let mut stopped = record("web", WEB, StackStatus::Stopped);
    stopped.compose_path = "web/compose.yaml".to_string();
    stacks.create_stack(stopped);
    let mut pass = begin(false, stacks, ImageTable::new());
    planned(pass.process_stack(&declared("web"), compose(WEB_CHANGED)));
    let (_, stacks, _) = pass.finish();
    let mut expected = record("web", WEB_CHANGED, StackStatus::Stopped);
    expected.compose_path = "web/compose.yaml".to_string();
    assert_eq!(stacks.get_all_stacks(), vec![expected]);
}

#[test]
fn stack_of_another_origin_does_not_count_as_known() {
    let mut stacks = StackTable::new();
    let mut foreign = record("web", WEB, StackStatus::Deployed);
    foreign.repository_url = "https://github.com/other/stacks".to_string();
    stacks.create_stack(foreign);
    let mut pass = begin(false, stacks, ImageTable::new());
    let plan = planned(pass.process_stack(&declared("web"), compose(WEB)));
    assert_eq!(plan.action, StackAction::Create);
    let (_, stacks, _) = pass.finish();
    assert_eq!(stacks.get_all_stacks().len(), 2);
}

#[test]
fn stack_without_directory_is_skipped() {
    let mut stacks = StackTable::new();
    stacks.create_stack(record("web", WEB, StackStatus::Deployed));
    let mut pass = begin(false, stacks, ImageTable::new());
    assert_eq!(
        pass.process_stack(&declared("ghost"), StackSource::NoDirectory),
        StackOutcome::Skipped(SkipReason::NoDirectory)
    );
    assert_eq!(
        pass.process_stack(&declared("web"), StackSource::NoDirectory),
        StackOutcome::Skipped(SkipReason::NoDirectory)
    );
    let plan = planned(pass.process_stack(&declared("api"), compose(WEB)));
    assert_eq!(plan.action, StackAction::Create);
    pass.complete_stack(&plan, true);
    let (sweep, stacks, _) = pass.finish();
    assert_eq!(
        stacks.get_all_stacks(),
        vec![record("api", WEB, StackStatus::Deployed), record("web", WEB, StackStatus::Deployed)]
    );
    assert_eq!(sweep, vec![("nginx:1.25".to_string(), SweepStep::Check)]);
}

#[test]
fn stack_without_compose_file_is_skipped() {
    let mut pass = begin(false, StackTable::new(), ImageTable::new());
    assert_eq!(
        pass.process_stack(&declared("web"), StackSource::NoComposeFile),
        StackOutcome::Skipped(SkipReason::NoComposeFile)
    );
    let (sweep, stacks, images) = pass.finish();
    assert!(sweep.is_empty());
    assert!(stacks.get_all_stacks().is_empty());
    assert!(images.get_all_images().is_empty());
}

#[test]
fn images_of_skipped_stacks_are_evicted() {
    let mut images = ImageTable::new();
    images.create_image(Image::new("nginx:1.25".to_string(), 1));
    images.create_image(Image::new("redis".to_string(), 3));
    let mut pass = begin(false, StackTable::new(), images);
    pass.process_stack(&declared("cache"), StackSource::NoDirectory);
    let plan = planned(pass.process_stack(&declared("web"), compose(WEB)));
    pass.complete_stack(&plan, true);
    let (sweep, _, images) = pass.finish();
    assert_eq!(
        sweep,
        vec![("nginx:1.25".to_string(), SweepStep::Check), ("redis".to_string(), SweepStep::Evict)]
    );
    assert_eq!(images.get_all_images(), vec![Image::new("nginx:1.25".to_string(), 1)]);
}

#[test]
fn volumes_are_resolved_before_fingerprinting() {
    let catalog = vec![VolumeDefinition {
        id: "cache".to_string(),
        kind: VolumeType::Binding,
        path: "/mnt/mirror/cache".to_string(),
        resolved: true,
    }];
    let mut pass =
        Pass::begin(ORIGIN.to_string(), false, Some(catalog), StackTable::new(), ImageTable::new());
    let source = "services:\n  web:\n    image: nginx\n    volumes:\n      - cache:/data\n      - logs:/log\n";
    let plan = planned(pass.process_stack(&declared("web"), compose(source)));
    let resolved = "services:\n  web:\n    image: nginx\n    volumes:\n    - /mnt/mirror/cache:/data\n    - logs:/log\n";
    assert_eq!(plan.content, resolved);
    assert_eq!(plan.hash, calculate_md5(resolved));
    assert_eq!(plan.unknown_volumes, vec!["logs"]);
}

#[test]
fn without_catalog_the_text_is_deployed_as_it_is() {
    let mut pass = begin(false, StackTable::new(), ImageTable::new());
    let odd = "services:   {web: {image: nginx}}   # comment\n";
    let plan = planned(pass.process_stack(&declared("web"), compose(odd)));
    assert_eq!(plan.content, odd);
    assert_eq!(plan.hash, calculate_md5(odd));
}

#[test]
fn unreadable_compose_with_catalog_fails_the_stack_only() {
    let mut pass =
        Pass::begin(ORIGIN.to_string(), false, Some(Vec::new()), StackTable::new(), ImageTable::new());
    assert!(matches!(
        pass.process_stack(&declared("bad"), compose("services: [")),
        StackOutcome::Failed(YamlError::Parse(_))
    ));
    let plan = planned(pass.process_stack(&declared("web"), compose(WEB)));
    assert_eq!(plan.action, StackAction::Create);
    let (_, stacks, _) = pass.finish();
    assert_eq!(stacks.get_all_stacks().len(), 1);
}

#[test]
fn unreadable_compose_without_catalog_is_deployed_but_not_counted() {
    let mut pass = begin(false, StackTable::new(), ImageTable::new());
    let plan = planned(pass.process_stack(&declared("odd"), compose("services: [")));
    assert_eq!(plan.action, StackAction::Create);
    assert!(matches!(pass.complete_stack(&plan, true), Accounting::Unreadable(YamlError::Parse(_))));
    let (sweep, stacks, _) = pass.finish();
    assert!(sweep.is_empty());
    assert_eq!(stacks.get_all_stacks()[0].status, StackStatus::Deployed);
}

#[test]
fn image_counts_start_from_zero_in_every_pass() {
    let mut images = ImageTable::new();
    images.create_image(Image::new("nginx:1.25".to_string(), 41));
    let mut pass = begin(false, StackTable::new(), images);
    let plan = planned(pass.process_stack(&declared("web"), compose(WEB)));
    pass.complete_stack(&plan, true);
    let (_, _, images) = pass.finish();
    assert_eq!(images.get_all_images(), vec![Image::new("nginx:1.25".to_string(), 1)]);
}

#[test]
fn images_of_a_stack_whose_deployment_failed_are_not_evicted() {
    let mut images = ImageTable::new();
    images.create_image(Image::new("nginx:1.25".to_string(), 1));
    let mut pass = begin(false, StackTable::new(), images);
    let plan = planned(pass.process_stack(&declared("web"), compose(WEB)));
    pass.complete_stack(&plan, false);
    let (sweep, stacks, images) = pass.finish();
    assert_eq!(sweep, vec![("nginx:1.25".to_string(), SweepStep::Check)]);
    assert_eq!(images.get_all_images(), vec![Image::new("nginx:1.25".to_string(), 1)]);
    assert_eq!(stacks.get_all_stacks()[0].status, StackStatus::Pending);
}

#[test]
fn binding_without_mirror_target_leaves_the_compose_document_as_declared() {
    let catalog =
        vec![VolumeDefinition::new("conf".to_string(), VolumeType::Binding, "assets/conf".to_string())];
    let mut pass =
        Pass::begin(ORIGIN.to_string(), false, Some(catalog), StackTable::new(), ImageTable::new());
    let source = "services:\n  a:\n    image: nginx\n    volumes:\n      - conf:/etc/conf\n";
    let plan = planned(pass.process_stack(&declared("a"), compose(source)));
    assert_eq!(
        plan.content,
        "services:\n  a:\n    image: nginx\n    volumes:\n    - conf:/etc/conf\n"
    );
    assert!(plan.unknown_volumes.is_empty());
    assert_eq!(plan.action, StackAction::Create);
}

#[test]
fn no_stack_is_deployed_while_a_docker_volume_is_missing() {
    let catalog = vec![
        VolumeDefinition {
            id: "db".to_string(),
            kind: VolumeType::Volume,
            path: "pgdata".to_string(),
            resolved: true,
        },
        VolumeDefinition::new("cache".to_string(), VolumeType::Volume, "cache_data".to_string()),
    ];
    let mut stacks = StackTable::new();
    stacks.create_stack(record("web", WEB, StackStatus::Deployed));
    let mut pass = Pass::begin(ORIGIN.to_string(), false, Some(catalog), stacks, ImageTable::new());
    assert_eq!(
        pass.process_stack(&declared("web"), compose(WEB_CHANGED)),
        StackOutcome::VolumeUnavailable("cache_data".to_string())
    );
    assert_eq!(
        pass.process_stack(&declared("api"), compose(WEB)),
        StackOutcome::VolumeUnavailable("cache_data".to_string())
    );
    assert_eq!(
        pass.process_stack(&declared("gone"), StackSource::NoDirectory),
        StackOutcome::Skipped(SkipReason::NoDirectory)
    );
    let (_, stacks, _) = pass.finish();
    assert_eq!(stacks.get_all_stacks(), vec![record("web", WEB, StackStatus::Deployed)]);
}
