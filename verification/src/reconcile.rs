//! The stack reconciler: one pass over the declared stacks of an origin.
//!
//! For each declared stack the pass resolves the volumes of its compose
//! document, fingerprints the result, compares it with the stack's record and
//! decides whether the stack is to be deployed. Whoever drives the pass reads
//! the files, runs the deployments and reports back; the pass keeps the
//! records and counts the images. When every stack is done, the pass ends
//! with the sweep over the images.

use crate::document::{emitted_yaml, parsed_yaml, YamlError};
use crate::fingerprint::{calculate_md5, fingerprint};
use crate::images::images_in;
use crate::ledger::{
    by_name, distinct_names, referenced, steps, sweep_of, tallied, zeroed, ImageSpec, ImageTable,
    SweepStep,
};
use crate::stacks::{
    distinct_stacks, lemma_push_keeps_positions, lemma_stack_position,
    lemma_update_keeps_positions, stack_of, stack_position, with_hash, with_stack, with_status,
    Stack, StackSpec, StackStatus, StackTable,
};
use crate::text::{concat, same_text, texts};
use crate::volumes::{
    catalog, find_missing_volume, missing_volume, process_compose_volumes, resolved_document,
    unknown_in_document, VolumeDefinition, VolumeSpec,
};
use vstd::prelude::*;

verus! {

/// One entry of the manifest of declared stacks.
#[derive(Clone, Debug, PartialEq, Eq)]
pub struct StackDefinition {
    /// The stack's name, which is also the name of its directory.
    pub name: String,
}

/// The file names under which a stack's compose document is looked for, in
/// order of precedence.
pub open spec fn compose_names() -> Seq<Seq<char>> {
    seq!["docker-compose.yml"@, "docker-compose.yaml"@, "compose.yml"@, "compose.yaml"@]
}

/// The file names under which a stack's compose document is looked for, in
/// order of precedence.
pub fn compose_file_names() -> (names: Vec<&'static str>)
    ensures
        names@.len() == 4,
        Seq::new(4, |i: int| names@[i]@) == compose_names(),
{
    let mut names: Vec<&'static str> = Vec::new();
    names.push("docker-compose.yml");
    names.push("docker-compose.yaml");
    names.push("compose.yml");
    names.push("compose.yaml");
    assert(Seq::new(4, |i: int| names@[i]@) =~= compose_names());
    names
}

/// Position of the first candidate that is present, or the number of
/// candidates if none is.
pub open spec fn first_present(present: Seq<bool>) -> int
    decreases present.len(),
{
    if present.len() == 0 || present[0] {
        0
    } else {
        1 + first_present(present.skip(1))
    }
}

/// Picks the compose document among the candidates: the first one that is
/// present wins.
pub fn select_compose_file(present: &[bool]) -> (choice: Option<usize>)
    ensures
        match choice {
            Some(at) => at == first_present(present@) && at < present.len() && present[at as int],
            None => first_present(present@) == present.len(),
        },
        forall|i: int| 0 <= i < first_present(present@) ==> !present[i],
{
    let mut i: usize = 0;
    assert(present@.skip(0) =~= present@);
    while i < present.len()
        invariant
            i <= present.len(),
            first_present(present@) == i + first_present(present@.skip(i as int)),
            forall|j: int| 0 <= j < i ==> !present[j],
        decreases present.len() - i,
    {
        assert(present@.skip(i as int)[0] == present@[i as int]);
        assert(present@.skip(i as int).skip(1) =~= present@.skip(i + 1));
        if present[i] {
            return Some(i);
        }
        i += 1;
    }
    None
}

/// What the source tree holds for a declared stack.
#[derive(Debug, PartialEq, Eq)]
pub enum StackSource {
    /// There is no directory of the stack's name.
    NoDirectory,
    /// The directory holds no compose document under any of the names.
    NoComposeFile,
    /// The compose document that was found.
    Compose {
        /// The name of the file within the stack's directory.
        file_name: String,
        /// The text of the file.
        content: String,
    },
}

/// Why a declared stack was passed over.
#[derive(Clone, Copy, Debug, PartialEq, Eq, Structural)]
pub enum SkipReason {
    NoDirectory,
    NoComposeFile,
}

/// What is to be done about a stack.
#[derive(Clone, Copy, Debug, PartialEq, Eq, Structural)]
pub enum StackAction {
    /// The stack is on record with this very fingerprint.
    Unchanged,
    /// The stack had no record.
    Create,
    /// The stack is on record with another fingerprint.
    Update {
        /// Whether the running stack is removed before it is deployed anew.
        stop_first: bool,
    },
}

/// A command for the executor, about one stack.
#[derive(Clone, Copy, Debug, PartialEq, Eq, Structural)]
pub enum StackCommand {
    Remove,
    Deploy,
}

impl StackAction {
    /// The commands that carry an action out, in order.
    pub open spec fn spec_commands(self) -> Seq<StackCommand> {
        match self {
            StackAction::Unchanged => seq![],
            StackAction::Create => seq![StackCommand::Deploy],
            StackAction::Update { stop_first } => if stop_first {
                seq![StackCommand::Remove, StackCommand::Deploy]
            } else {
                seq![StackCommand::Deploy]
            },
        }
    }

    /// The commands that carry this action out, in order.
    pub fn commands(self) -> (commands: Vec<StackCommand>)
        ensures
            commands@ == self.spec_commands(),
    {
        let mut commands: Vec<StackCommand> = Vec::new();
        match self {
            StackAction::Unchanged => {},
            StackAction::Create => {
                commands.push(StackCommand::Deploy);
            },
            StackAction::Update { stop_first } => {
                if stop_first {
                    commands.push(StackCommand::Remove);
                }
                commands.push(StackCommand::Deploy);
            },
        }
        assert(commands@ =~= self.spec_commands());
        commands
    }
}

/// The action for a stack, from its record, the fingerprint of its compose
/// document and the mode of the pass.
pub open spec fn decided(existing: Option<StackSpec>, hash: Seq<char>, reconcile: bool) -> StackAction {
    match existing {
        None => StackAction::Create,
        Some(record) => if record.hash == hash {
            StackAction::Unchanged
        } else {
            StackAction::Update { stop_first: reconcile }
        },
    }
}

/// The records once the action for a stack is decided: a new stack is on
/// record as pending, a changed stack has its new fingerprint, an unchanged
/// stack leaves the records as they are.
pub open spec fn after_decision(
    records: Seq<StackSpec>,
    name: Seq<char>,
    origin: Seq<char>,
    compose_path: Seq<char>,
    hash: Seq<char>,
) -> Seq<StackSpec> {
    match stack_of(records, name, origin) {
        None => with_stack(
            records,
            StackSpec {
                name,
                repository_url: origin,
                compose_path,
                hash,
                status: StackStatus::Pending,
            },
        ),
        Some(record) => if record.hash == hash {
            records
        } else {
            with_hash(records, name, origin, hash)
        },
    }
}

/// Path of a stack's compose document, relative to the root of the source
/// tree.
pub open spec fn compose_location(stack_name: Seq<char>, file_name: Seq<char>) -> Seq<char> {
    stack_name + seq!['/'] + file_name
}

/// The text of a compose document as it is deployed: with its volumes
/// resolved against the catalog, or as it is where there is no catalog.
/// `None` where there is a catalog and the text cannot be read, or the
/// resolved document cannot be written, as YAML.
pub open spec fn deployed_text(content: Seq<char>, volumes: Option<Seq<VolumeSpec>>) -> Option<
    Seq<char>,
> {
    match volumes {
        None => Some(content),
        Some(entries) => match parsed_yaml(content) {
            Some(document) => emitted_yaml(resolved_document(document, entries)),
            None => None,
        },
    }
}

/// The name of the Docker volume that stands in the way of every deployment:
/// the first volume of the catalog that is not known to exist.
pub open spec fn blocking_volume(volumes: Option<Seq<VolumeSpec>>) -> Option<Seq<char>> {
    match volumes {
        Some(entries) => missing_volume(entries),
        None => None,
    }
}

/// The identifiers mounted in a compose document that the catalog does not
/// know; none where there is no catalog.
pub open spec fn unknown_identifiers(content: Seq<char>, volumes: Option<Seq<VolumeSpec>>) -> Seq<
    Seq<char>,
> {
    match volumes {
        None => seq![],
        Some(entries) => match parsed_yaml(content) {
            Some(document) => unknown_in_document(document, entries),
            None => seq![],
        },
    }
}

/// What a pass decided about one stack.
#[derive(Debug, PartialEq, Eq)]
pub struct StackPlan {
    pub name: String,
    /// Path of the compose document, relative to the root of the source tree.
    pub compose_path: String,
    /// The text to write back to the compose document and to deploy.
    pub content: String,
    /// The fingerprint of `content`.
    pub hash: String,
    pub action: StackAction,
    /// Mounted identifiers that the volume catalog does not know: warnings.
    pub unknown_volumes: Vec<String>,
}

/// How the pass dealt with one declared stack.
#[derive(Debug, PartialEq, Eq)]
pub enum StackOutcome {
    /// The stack was passed over; nothing was recorded.
    Skipped(SkipReason),
    /// A Docker volume of the catalog, named here, is not known to exist: the
    /// stack is not deployed; nothing was recorded.
    VolumeUnavailable(String),
    /// The stack's action is decided and on record.
    Planned(StackPlan),
    /// The compose document could not be resolved; nothing was recorded.
    Failed(YamlError),
}

/// How the images of one stack were accounted for.
#[derive(Debug, PartialEq, Eq)]
pub enum Accounting {
    /// The images that were found and counted.
    Counted(Vec<String>),
    /// The deployed text is not a YAML document: no image was counted.
    Unreadable(YamlError),
}

/// One reconciliation pass over the stacks of an origin.
pub struct Pass {
    repository_url: String,
    is_reconcile: bool,
    volumes: Option<Vec<VolumeDefinition>>,
    stacks: StackTable,
    images: ImageTable,
}

impl Pass {
    /// The origin whose stacks this pass reconciles.
    pub closed spec fn origin(&self) -> Seq<char> {
        self.repository_url@
    }

    /// Whether a changed stack is removed before it is deployed anew.
    pub closed spec fn reconciles(&self) -> bool {
        self.is_reconcile
    }

    /// The volume catalog, if there is one.
    pub closed spec fn volumes(&self) -> Option<Seq<VolumeSpec>> {
        match self.volumes {
            Some(definitions) => Some(catalog(definitions@)),
            None => None,
        }
    }

    /// The stack records.
    pub closed spec fn stacks(&self) -> Seq<StackSpec> {
        self.stacks@
    }

    /// The image ledger.
    pub closed spec fn images(&self) -> Seq<ImageSpec> {
        self.images@
    }

    /// The records name no stack and no image twice.
    pub open spec fn wf(&self) -> bool {
        distinct_stacks(self.stacks()) && distinct_names(self.images())
    }

    /// Starts a pass: every image count is set to zero.
    pub fn begin(
        repository_url: String,
        is_reconcile: bool,
        volumes: Option<Vec<VolumeDefinition>>,
        stacks: StackTable,
        images: ImageTable,
    ) -> (pass: Pass)
        requires
            stacks.wf(),
            images.wf(),
        ensures
            pass.wf(),
            pass.origin() == repository_url@,
            pass.reconciles() == is_reconcile,
            pass.volumes() == match volumes {
                Some(definitions) => Some(catalog(definitions@)),
                None => None,
            },
            pass.stacks() == stacks@,
            pass.images() == zeroed(images@),
    {
        let mut images = images;
        images.reset_image_reference_counts();
        Pass { repository_url, is_reconcile, volumes, stacks, images }
    }

    /// Deals with one declared stack, given what the source tree holds for it.
    ///
    /// A stack without directory or without compose document is passed over.
    /// A stack is not dealt with while a Docker volume of the catalog is not
    /// known to exist. Otherwise the volumes of the document are resolved,
    /// mounts of unresolved catalog entries staying as they are declared; the
    /// result is fingerprinted, and the action follows from the stack's
    /// record, which is brought up to date at once.
    pub fn process_stack(&mut self, stack: &StackDefinition, source: StackSource) -> (outcome:
        StackOutcome)
        requires
            old(self).wf(),
        ensures
            final(self).wf(),
            final(self).origin() == old(self).origin(),
            final(self).reconciles() == old(self).reconciles(),
            final(self).volumes() == old(self).volumes(),
            final(self).images() == old(self).images(),
            match source {
                StackSource::NoDirectory => {
                    &&& outcome == StackOutcome::Skipped(SkipReason::NoDirectory)
                    &&& final(self).stacks() == old(self).stacks()
                },
                StackSource::NoComposeFile => {
                    &&& outcome == StackOutcome::Skipped(SkipReason::NoComposeFile)
                    &&& final(self).stacks() == old(self).stacks()
                },
                StackSource::Compose { file_name, content } => match (
                    blocking_volume(old(self).volumes()),
                    deployed_text(content@, old(self).volumes()),
                ) {
                    (Some(volume), _) => {
                        &&& outcome matches StackOutcome::VolumeUnavailable(name)
                        &&& name@ == volume
                        &&& final(self).stacks() == old(self).stacks()
                    },
                    (None, None) => {
                        &&& outcome matches StackOutcome::Failed(error)
                        &&& error is Parse <==> parsed_yaml(content@) is None
                        &&& error is Emit <==> parsed_yaml(content@) is Some
                        &&& final(self).stacks() == old(self).stacks()
                    },
                    (None, Some(text)) => {
                        &&& outcome matches StackOutcome::Planned(plan)
                        &&& plan.name@ == stack.name@
                        &&& plan.compose_path@ == compose_location(stack.name@, file_name@)
                        &&& plan.content@ == text
                        &&& plan.hash@ == fingerprint(text)
                        &&& plan.action == decided(
                            stack_of(old(self).stacks(), stack.name@, old(self).origin()),
                            fingerprint(text),
                            old(self).reconciles(),
                        )
                        &&& texts(plan.unknown_volumes@) == unknown_identifiers(
                            content@,
                            old(self).volumes(),
                        )
                        &&& final(self).stacks() == after_decision(
                            old(self).stacks(),
                            stack.name@,
                            old(self).origin(),
                            plan.compose_path@,
                            fingerprint(text),
                        )
                    },
                },
            },
    {
        let (file_name, content) = match source {
            StackSource::NoDirectory => {
                return StackOutcome::Skipped(SkipReason::NoDirectory);
            },
            StackSource::NoComposeFile => {
                return StackOutcome::Skipped(SkipReason::NoComposeFile);
            },
            StackSource::Compose { file_name, content } => (file_name, content),
        };
        let (text, unknown_volumes) = match &self.volumes {
            None => {
                let unknown: Vec<String> = Vec::new();
                assert(texts(unknown@) =~= Seq::<Seq<char>>::empty());
                (content, unknown)
            },
            Some(definitions) => match find_missing_volume(definitions.as_slice()) {
                Some(name) => {
                    return StackOutcome::VolumeUnavailable(name);
                },
                None => match process_compose_volumes(
                content.as_str(),
                definitions.as_slice(),
            ) {
                    Ok(resolved) => resolved,
                    Err(error) => {
                        return StackOutcome::Failed(error);
                    },
                },
            },
        };
        let hash = calculate_md5(text.as_str());
        let directory = concat(stack.name.as_str(), "/");
        let compose_path = concat(directory.as_str(), file_name.as_str());
        proof {
            reveal_strlit("/");
            assert("/"@ =~= seq!['/']);
        }
        let action = match self.stacks.get_stack_by_name(
            stack.name.as_str(),
            self.repository_url.as_str(),
        ) {
            None => StackAction::Create,
            Some(record) => if same_text(record.hash.as_str(), hash.as_str()) {
                StackAction::Unchanged
            } else {
                StackAction::Update { stop_first: self.is_reconcile }
            },
        };
        match action {
            StackAction::Unchanged => {},
            StackAction::Create => {
                self.stacks.create_stack(
                    Stack::new(
                        stack.name.clone(),
                        self.repository_url.clone(),
                        compose_path.clone(),
                        hash.clone(),
                    ),
                );
            },
            StackAction::Update { .. } => {
                self.stacks.update_stack_hash(
                    stack.name.as_str(),
                    self.repository_url.as_str(),
                    hash.as_str(),
                );
            },
        }
        StackOutcome::Planned(
            StackPlan {
                name: stack.name.clone(),
                compose_path,
                content: text,
                hash,
                action,
                unknown_volumes,
            },
        )
    }

    /// The record of the stack `name` of this pass's origin, if it has one.
    pub fn get_stack_by_name(&self, name: &str) -> (found: Option<&Stack>)
        ensures
            match found {
                Some(stack) => stack_of(self.stacks(), name@, self.origin()) == Some(stack@),
                None => stack_of(self.stacks(), name@, self.origin()) is None,
            },
    {
        self.stacks.get_stack_by_name(name, self.repository_url.as_str())
    }

    /// Settles one stack after its commands were run: `deployed` says whether
    /// the deployment succeeded, and counts for nothing where the plan asked
    /// for none.
    ///
    /// A stack that was deployed is on record as deployed. Whatever became of
    /// the deployment, the images of the stack are counted: the ledger
    /// reflects every declared stack whose compose document was found, so that
    /// the sweep evicts no image that a declared stack refers to.
    pub fn complete_stack(&mut self, plan: &StackPlan, deployed: bool) -> (accounting: Accounting)
        requires
            old(self).wf(),
        ensures
            final(self).wf(),
            final(self).origin() == old(self).origin(),
            final(self).reconciles() == old(self).reconciles(),
            final(self).volumes() == old(self).volumes(),
            final(self).stacks() == settled_stacks(
                old(self).stacks(),
                plan.name@,
                old(self).origin(),
                plan.action,
                deployed,
            ),
            final(self).images() == settled_images(old(self).images(), plan.content@),
            match accounting {
                Accounting::Counted(found) => {
                    &&& parsed_yaml(plan.content@) matches Some(document)
                    &&& texts(found@) == images_in(document)
                },
                Accounting::Unreadable(error) => {
                    &&& parsed_yaml(plan.content@) is None
                    &&& error is Parse
                },
            },
    {
        match plan.action {
            StackAction::Unchanged => {},
            _ => {
                if deployed {
                    self.stacks.update_stack_status(
                        plan.name.as_str(),
                        self.repository_url.as_str(),
                        StackStatus::Deployed,
                    );
                }
            },
        }
        match self.images.process_yaml_file(plan.content.as_str()) {
            Ok(found) => Accounting::Counted(found),
            Err(error) => Accounting::Unreadable(error),
        }
    }

    /// Ends the pass with the sweep over the images: what is to be done about
    /// each image on record, the images taken by name in ascending order;
    /// then the stack records and the image ledger as the pass leaves them,
    /// the ledger without the images to evict.
    pub fn finish(self) -> (end: (Vec<(String, SweepStep)>, StackTable, ImageTable))
        requires
            self.wf(),
        ensures
            steps(end.0@) == sweep_of(by_name(self.images())),
            end.1.wf(),
            end.1@ == self.stacks(),
            end.2.wf(),
            end.2@ == referenced(self.images()),
    {
        let mut images = self.images;
        let sweep = images.process_images();
        (sweep, self.stacks, images)
    }
}

/// The stack records after a stack's commands were run: a stack that was
/// deployed is on record as deployed.
pub open spec fn settled_stacks(
    records: Seq<StackSpec>,
    name: Seq<char>,
    origin: Seq<char>,
    action: StackAction,
    deployed: bool,
) -> Seq<StackSpec> {
    if deployed && !(action is Unchanged) {
        with_status(records, name, origin, StackStatus::Deployed)
    } else {
        records
    }
}

/// The image ledger after a stack's commands were run: the images of the
/// stack are counted, as far as its deployed text is a document.
pub open spec fn settled_images(records: Seq<ImageSpec>, content: Seq<char>) -> Seq<ImageSpec> {
    match parsed_yaml(content) {
        Some(document) => tallied(records, images_in(document)),
        None => records,
    }
}

/// A stack is deployed exactly once where it is new or its fingerprint
/// differs from the one on record, and not at all where the two agree.
pub proof fn lemma_one_deployment(existing: Option<StackSpec>, hash: Seq<char>, reconcile: bool)
    ensures
        decided(existing, hash, reconcile) is Unchanged <==> (existing matches Some(record)
            && record.hash == hash),
        decided(existing, hash, reconcile) is Unchanged ==> decided(
            existing,
            hash,
            reconcile,
        ).spec_commands() == Seq::<StackCommand>::empty(),
        !(decided(existing, hash, reconcile) is Unchanged) ==> {
            ||| decided(existing, hash, reconcile).spec_commands() == seq![StackCommand::Deploy]
            ||| decided(existing, hash, reconcile).spec_commands() == seq![
                StackCommand::Remove,
                StackCommand::Deploy,
            ]
        },
{
}

/// What a pass finds for one declared stack that it does not pass over.
pub ghost struct Finding {
    pub name: Seq<char>,
    /// Path of the compose document, relative to the root of the source tree.
    pub compose_path: Seq<char>,
    /// Fingerprint of the text to deploy.
    pub hash: Seq<char>,
    /// Whether the deployment succeeds, if there is one.
    pub deployed: bool,
}

/// The action that a pass decides for a finding.
pub open spec fn action_for(
    records: Seq<StackSpec>,
    origin: Seq<char>,
    finding: Finding,
    reconcile: bool,
) -> StackAction {
    decided(stack_of(records, finding.name, origin), finding.hash, reconcile)
}

/// The stack records after a pass has dealt with one finding.
pub open spec fn after_stack(records: Seq<StackSpec>, origin: Seq<char>, finding: Finding) -> Seq<
    StackSpec,
> {
    settled_stacks(
        after_decision(records, finding.name, origin, finding.compose_path, finding.hash),
        finding.name,
        origin,
        action_for(records, origin, finding, false),
        finding.deployed,
    )
}

/// The stack records after a pass has dealt with a run of findings, one
/// after the other.
pub open spec fn after_stacks(
    records: Seq<StackSpec>,
    origin: Seq<char>,
    findings: Seq<Finding>,
) -> Seq<StackSpec>
    decreases findings.len(),
{
    if findings.len() == 0 {
        records
    } else {
        after_stack(after_stacks(records, origin, findings.drop_last()), origin, findings.last())
    }
}

/// The mode of a pass has no part in what goes on record.
pub proof fn lemma_mode_leaves_no_trace(
    records: Seq<StackSpec>,
    name: Seq<char>,
    origin: Seq<char>,
    hash: Seq<char>,
    deployed: bool,
    reconcile: bool,
)
    ensures
        settled_stacks(
            records,
            name,
            origin,
            decided(stack_of(records, name, origin), hash, reconcile),
            deployed,
        ) == settled_stacks(
            records,
            name,
            origin,
            decided(stack_of(records, name, origin), hash, false),
            deployed,
        ),
{
}

/// Dealing with one stack leaves the record of every other stack as it is,
/// and leaves the stack itself on record with the fingerprint that was found.
pub proof fn lemma_after_stack(
    records: Seq<StackSpec>,
    origin: Seq<char>,
    finding: Finding,
    name: Seq<char>,
    other_origin: Seq<char>,
)
    requires
        distinct_stacks(records),
    ensures
        distinct_stacks(after_stack(records, origin, finding)),
        stack_of(after_stack(records, origin, finding), finding.name, origin) matches Some(record)
            && record.hash == finding.hash,
        name != finding.name || other_origin != origin ==> stack_of(
            after_stack(records, origin, finding),
            name,
            other_origin,
        ) == stack_of(records, name, other_origin),
{
    let at = stack_position(records, finding.name, origin);
    lemma_stack_position(records, finding.name, origin);
    let decision = after_decision(
        records,
        finding.name,
        origin,
        finding.compose_path,
        finding.hash,
    );
    let fresh = StackSpec {
        name: finding.name,
        repository_url: origin,
        compose_path: finding.compose_path,
        hash: finding.hash,
        status: StackStatus::Pending,
    };
    if at < records.len() {
        if records[at].hash != finding.hash {
            let changed = StackSpec { hash: finding.hash, ..records[at] };
            lemma_update_keeps_positions(records, at, changed, finding.name, origin);
            lemma_update_keeps_positions(records, at, changed, name, other_origin);
        }
    } else {
        lemma_push_keeps_positions(records, fresh, finding.name, origin);
        lemma_push_keeps_positions(records, fresh, name, other_origin);
    }
    let to = stack_position(decision, finding.name, origin);
    lemma_stack_position(decision, finding.name, origin);
    let settled = after_stack(records, origin, finding);
    if settled != decision {
        let confirmed = StackSpec { status: StackStatus::Deployed, ..decision[to] };
        lemma_update_keeps_positions(decision, to, confirmed, finding.name, origin);
        lemma_update_keeps_positions(decision, to, confirmed, name, other_origin);
    }
}

/// A stack that is on record with the fingerprint that is found is left
/// alone: no command is issued for it and the records stay as they are.
pub proof fn lemma_unchanged_stack(
    records: Seq<StackSpec>,
    origin: Seq<char>,
    finding: Finding,
    reconcile: bool,
)
    requires
        stack_of(records, finding.name, origin) matches Some(record) && record.hash
            == finding.hash,
    ensures
        action_for(records, origin, finding, reconcile) is Unchanged,
        action_for(records, origin, finding, reconcile).spec_commands() == Seq::<
            StackCommand,
        >::empty(),
        after_stack(records, origin, finding) == records,
{
}

/// After a pass over stacks of different names, each of them is on record
/// with the fingerprint that the pass found for it.
pub proof fn lemma_findings_on_record(
    records: Seq<StackSpec>,
    origin: Seq<char>,
    findings: Seq<Finding>,
    k: int,
)
    requires
        distinct_stacks(records),
        forall|i: int, j: int|
            0 <= i < j < findings.len() ==> (#[trigger] findings[i]).name != (
            #[trigger] findings[j]).name,
        0 <= k < findings.len(),
    ensures
        distinct_stacks(after_stacks(records, origin, findings)),
        stack_of(after_stacks(records, origin, findings), findings[k].name, origin) matches Some(
            record,
        ) && record.hash == findings[k].hash,
    decreases findings.len(),
{
    let front = findings.drop_last();
    let before = after_stacks(records, origin, front);
    lemma_after_stacks_distinct(records, origin, front);
    lemma_after_stack(before, origin, findings.last(), findings[k].name, origin);
    if k < front.len() {
        assert forall|i: int, j: int| 0 <= i < j < front.len() implies (#[trigger] front[i]).name != (
        #[trigger] front[j]).name by {
            assert(front[i] == findings[i] && front[j] == findings[j]);
        }
        lemma_findings_on_record(records, origin, front, k);
        assert(front[k] == findings[k]);
        assert(findings[k].name != findings[findings.len() - 1].name);
    }
}

/// A pass keeps the records free of duplicates.
pub proof fn lemma_after_stacks_distinct(
    records: Seq<StackSpec>,
    origin: Seq<char>,
    findings: Seq<Finding>,
)
    requires
        distinct_stacks(records),
    ensures
        distinct_stacks(after_stacks(records, origin, findings)),
    decreases findings.len(),
{
    if findings.len() > 0 {
        lemma_after_stacks_distinct(records, origin, findings.drop_last());
        lemma_after_stack(
            after_stacks(records, origin, findings.drop_last()),
            origin,
            findings.last(),
            findings.last().name,
            origin,
        );
    }
}

/// Reconciling is idempotent. After a pass over stacks of different names, a
/// second pass that finds the same stacks with the same fingerprints issues
/// no command for any of them, in either mode, and leaves the records as
/// the first pass left them: whether or not a deployment of the first pass
/// succeeded.
pub proof fn lemma_second_pass_is_idle(
    records: Seq<StackSpec>,
    origin: Seq<char>,
    first: Seq<Finding>,
    second: Seq<Finding>,
    reconcile: bool,
    k: int,
)
    requires
        distinct_stacks(records),
        first.len() == second.len(),
        forall|i: int|
            0 <= i < first.len() ==> (#[trigger] second[i]).name == first[i].name && second[i].hash
                == first[i].hash,
        forall|i: int, j: int|
            0 <= i < j < first.len() ==> (#[trigger] first[i]).name != (#[trigger] first[j]).name,
        0 <= k <= second.len(),
    ensures
        after_stacks(after_stacks(records, origin, first), origin, second.take(k)) == after_stacks(
            records,
            origin,
            first,
        ),
        k < second.len() ==> action_for(
            after_stacks(after_stacks(records, origin, first), origin, second.take(k)),
            origin,
            second[k],
            reconcile,
        ).spec_commands() == Seq::<StackCommand>::empty(),
    decreases k,
{
    let settled = after_stacks(records, origin, first);
    if k > 0 {
        lemma_second_pass_is_idle(records, origin, first, second, reconcile, k - 1);
        assert(second.take(k).drop_last() =~= second.take(k - 1));
        assert(second.take(k).last() == second[k - 1]);
        lemma_findings_on_record(records, origin, first, k - 1);
        lemma_unchanged_stack(settled, origin, second[k - 1], reconcile);
    }
    if k < second.len() {
        lemma_findings_on_record(records, origin, first, k);
        lemma_unchanged_stack(settled, origin, second[k], reconcile);
    }
}

} // verus!
