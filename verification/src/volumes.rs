//! The volume resolver: a catalog of volume declarations, and the rewriting of
//! the volume mounts of a compose document so that each logical identifier
//! becomes the Docker volume or the mirrored path that the catalog gives it.

use crate::document::{
    emit_document, emitted_yaml, entry_trees, find_key, key_index, lemma_key_index,
    parse_document, parsed_yaml, trees, Node, Tree, YamlError,
};
use crate::text::{
    chars_of, concat, lemma_split_pair_of_joined, same_text, split_once_only, split_pair, texts,
};
use vstd::prelude::*;

verus! {

/// What backs a declared volume.
#[derive(Clone, Copy, Debug, PartialEq, Eq, Structural)]
pub enum VolumeType {
    /// A volume that Docker manages; its path is the volume's name.
    Volume,
    /// A directory or file mirrored under the mirror target.
    Binding,
}

/// One entry of the volume catalog.
#[derive(Clone, Debug, PartialEq, Eq)]
pub struct VolumeDefinition {
    /// The identifier that compose documents mount.
    pub id: String,
    pub kind: VolumeType,
    /// The Docker volume's name, or the path of the bound files: relative to
    /// the source tree before they are mirrored, under the mirror target after.
    pub path: String,
    /// Whether what backs the volume is in place: the Docker volume exists, or
    /// the bound files are mirrored. Only a resolved entry is written into
    /// compose documents.
    pub resolved: bool,
}

impl VolumeDefinition {
    /// An entry as it is declared: nothing backs it yet.
    pub fn new(id: String, kind: VolumeType, path: String) -> (definition: VolumeDefinition)
        ensures
            definition@ == (VolumeSpec { id: id@, kind, path: path@, resolved: false }),
    {
        VolumeDefinition { id, kind, path, resolved: false }
    }
}

/// Why the volumes of a catalog cannot be had.
#[derive(Debug, PartialEq, Eq)]
pub enum VolumeError {
    /// The Docker volume of this name does not exist and could not be
    /// created.
    CreationFailed { name: String },
}

/// The mirror target: the root under which bound volumes are mirrored.
#[derive(Clone, Debug, PartialEq, Eq)]
pub struct NfsConfig {
    pub path: String,
}

/// The mathematical value of a catalog entry.
pub ghost struct VolumeSpec {
    pub id: Seq<char>,
    pub kind: VolumeType,
    pub path: Seq<char>,
    pub resolved: bool,
}

impl View for VolumeDefinition {
    type V = VolumeSpec;

    open spec fn view(&self) -> VolumeSpec {
        VolumeSpec {
            id: self.id@,
            kind: self.kind,
            path: self.path@,
            resolved: self.resolved,
        }
    }
}

/// The values of a catalog's entries.
pub open spec fn catalog(definitions: Seq<VolumeDefinition>) -> Seq<VolumeSpec> {
    Seq::new(definitions.len(), |i: int| definitions[i]@)
}

/// Position of the first catalog entry with identifier `id`, or the number of
/// entries if there is none.
pub open spec fn definition_index(catalog: Seq<VolumeSpec>, id: Seq<char>) -> int
    decreases catalog.len(),
{
    if catalog.len() == 0 || catalog[0].id == id {
        0
    } else {
        1 + definition_index(catalog.skip(1), id)
    }
}

/// A mount entry: source, colon, path in the container.
pub open spec fn mount(source: Seq<char>, container_path: Seq<char>) -> Seq<char> {
    source + seq![':'] + container_path
}

/// The identifier and the container path of a mount entry: those of a string
/// scalar with exactly one colon.
pub open spec fn mount_parts(entry: Tree) -> Option<(Seq<char>, Seq<char>)> {
    match entry.as_text() {
        Some(text) => split_pair(text, ':'),
        None => None,
    }
}

/// One mount entry after resolution. An entry `identifier:container_path`
/// becomes `path:container_path`, with the path of the first catalog entry of
/// that identifier, where that entry is resolved. Any other entry stays as it
/// is declared: one whose identifier the catalog does not know, and one whose
/// catalog entry is not resolved.
pub open spec fn resolved_mount(entry: Tree, catalog: Seq<VolumeSpec>) -> Tree {
    match mount_parts(entry) {
        Some((id, container_path)) => {
            let at = definition_index(catalog, id);
            if at < catalog.len() && catalog[at].resolved {
                Tree::Text(mount(catalog[at].path, container_path))
            } else {
                entry
            }
        },
        None => entry,
    }
}

/// The identifier of a mount entry that the catalog does not know.
pub open spec fn unknown_mount(entry: Tree, catalog: Seq<VolumeSpec>) -> Option<Seq<char>> {
    match mount_parts(entry) {
        Some((id, _)) => if definition_index(catalog, id) < catalog.len() {
            None
        } else {
            Some(id)
        },
        None => None,
    }
}

/// The identifiers among `entries` that the catalog does not know, in order,
/// once for each entry that names one.
pub open spec fn unknown_mounts(entries: Seq<Tree>, catalog: Seq<VolumeSpec>) -> Seq<Seq<char>>
    decreases entries.len(),
{
    if entries.len() == 0 {
        seq![]
    } else {
        unknown_mounts(entries.drop_last(), catalog) + match unknown_mount(
            entries.last(),
            catalog,
        ) {
            Some(id) => seq![id],
            None => seq![],
        }
    }
}

/// A service's list of mounts after resolution: each entry of a sequence is
/// resolved; anything but a sequence stays as it is.
pub open spec fn resolved_volumes(volumes: Tree, catalog: Seq<VolumeSpec>) -> Tree {
    match volumes {
        Tree::Sequence(entries) => Tree::Sequence(
            Seq::new(entries.len(), |i: int| resolved_mount(entries[i], catalog)),
        ),
        _ => volumes,
    }
}

/// The identifiers in a service's list of mounts that the catalog does not
/// know.
pub open spec fn unknown_volumes(volumes: Tree, catalog: Seq<VolumeSpec>) -> Seq<Seq<char>> {
    match volumes {
        Tree::Sequence(entries) => unknown_mounts(entries, catalog),
        _ => seq![],
    }
}

/// The path `relative` taken from the directory `base`: `relative` itself if
/// it starts at the root, else `base` and `relative` with one slash between
/// them, which `base` may bring along.
pub open spec fn joined_path(base: Seq<char>, relative: Seq<char>) -> Seq<char> {
    if relative.len() > 0 && relative[0] == '/' {
        relative
    } else if base.len() == 0 || base.last() == '/' {
        base + relative
    } else {
        base + seq!['/'] + relative
    }
}

/// The root of the mirror target, if there is one.
pub open spec fn mirror_root(nfs_config: Option<NfsConfig>) -> Option<Seq<char>> {
    match nfs_config {
        Some(config) => Some(config.path@),
        None => None,
    }
}

/// What is to be done about one catalog entry before any document is
/// resolved.
#[derive(Debug, PartialEq, Eq)]
pub enum VolumeStep {
    /// Make sure that the Docker volume of this name exists: create it if it
    /// does not. How that went is settled by `process_docker_volume`, for
    /// which a failure is an error.
    EnsureVolume { name: String },
    /// Mirror the files at `source` to `destination`. How that went is
    /// settled by `process_binding_volume`, for which a failure is a warning.
    Mirror { source: String, destination: String },
    /// A binding without mirror target: nothing is done, the entry stays
    /// unresolved.
    SkipBinding,
}

/// The mathematical value of a step.
pub ghost enum VolumeStepSpec {
    EnsureVolume { name: Seq<char> },
    Mirror { source: Seq<char>, destination: Seq<char> },
    SkipBinding,
}

impl View for VolumeStep {
    type V = VolumeStepSpec;

    open spec fn view(&self) -> VolumeStepSpec {
        match self {
            VolumeStep::EnsureVolume { name } => VolumeStepSpec::EnsureVolume { name: name@ },
            VolumeStep::Mirror { source, destination } => VolumeStepSpec::Mirror {
                source: source@,
                destination: destination@,
            },
            VolumeStep::SkipBinding => VolumeStepSpec::SkipBinding,
        }
    }
}

/// The step for one catalog entry. A volume is to exist under the name that
/// its path gives. A binding is mirrored from its path in the source tree to
/// its identifier under the mirror target, where there is a mirror target.
pub open spec fn volume_step(
    definition: VolumeSpec,
    mirror: Option<Seq<char>>,
    repo_path: Seq<char>,
) -> VolumeStepSpec {
    match definition.kind {
        VolumeType::Volume => VolumeStepSpec::EnsureVolume { name: definition.path },
        VolumeType::Binding => match mirror {
            Some(root) => VolumeStepSpec::Mirror {
                source: joined_path(repo_path, definition.path),
                destination: joined_path(root, definition.id),
            },
            None => VolumeStepSpec::SkipBinding,
        },
    }
}

/// Position of the first entry of a Docker volume that is not resolved, or
/// the number of entries if there is none.
pub open spec fn first_unensured(catalog: Seq<VolumeSpec>) -> int
    decreases catalog.len(),
{
    if catalog.len() == 0 || (catalog[0].kind is Volume && !catalog[0].resolved) {
        0
    } else {
        1 + first_unensured(catalog.skip(1))
    }
}

/// The name of the first Docker volume of a catalog that is not known to
/// exist. No compose document is deployed against a catalog that has one.
pub open spec fn missing_volume(catalog: Seq<VolumeSpec>) -> Option<Seq<char>> {
    let at = first_unensured(catalog);
    if at < catalog.len() {
        Some(catalog[at].path)
    } else {
        None
    }
}

/// How the mirroring of one binding went.
#[derive(Clone, Copy, Debug, PartialEq, Eq, Structural)]
pub enum MirrorOutcome {
    /// There is nothing at the source path.
    SourceMissing,
    /// The files stand at the destination.
    Copied,
    /// Copying failed.
    Failed,
}

/// A mount of an identifier that the catalog does not know passes through:
/// the entry is reported and stays as it is. So does, unreported, a mount of
/// an identifier whose catalog entry is not resolved.
pub proof fn lemma_unknown_mount_passes_through(entry: Tree, catalog: Seq<VolumeSpec>)
    ensures
        unknown_mount(entry, catalog) is Some ==> resolved_mount(entry, catalog) == entry,
        unknown_mount(entry, catalog) is Some <==> (mount_parts(entry) matches Some(parts)
            && definition_index(catalog, parts.0) == catalog.len()),
        (mount_parts(entry) matches Some(parts) && definition_index(catalog, parts.0)
            < catalog.len() && !catalog[definition_index(catalog, parts.0)].resolved)
            ==> resolved_mount(entry, catalog) == entry && unknown_mount(entry, catalog) is None,
{
    match mount_parts(entry) {
        Some((id, _)) => {
            lemma_definition_index(catalog, id);
        },
        None => {},
    }
}

/// A mount `identifier:container_path`, neither part holding a colon, is
/// resolved to `path:container_path` with the path that a resolved catalog
/// entry gives the identifier. It stays as it is where that path is the
/// identifier itself, where the entry is not resolved, and where the catalog
/// does not know the identifier.
pub proof fn lemma_mount_resolution(
    id: Seq<char>,
    container_path: Seq<char>,
    catalog: Seq<VolumeSpec>,
)
    requires
        !id.contains(':'),
        !container_path.contains(':'),
    ensures
        mount_parts(Tree::Text(mount(id, container_path))) == Some((id, container_path)),
        definition_index(catalog, id) < catalog.len() && catalog[definition_index(
            catalog,
            id,
        )].resolved ==> resolved_mount(Tree::Text(mount(id, container_path)), catalog)
            == Tree::Text(mount(catalog[definition_index(catalog, id)].path, container_path)),
        definition_index(catalog, id) < catalog.len() && catalog[definition_index(
            catalog,
            id,
        )].path == id ==> resolved_mount(Tree::Text(mount(id, container_path)), catalog)
            == Tree::Text(mount(id, container_path)),
        definition_index(catalog, id) < catalog.len() && !catalog[definition_index(
            catalog,
            id,
        )].resolved ==> resolved_mount(Tree::Text(mount(id, container_path)), catalog)
            == Tree::Text(mount(id, container_path)),
        definition_index(catalog, id) >= catalog.len() ==> resolved_mount(
            Tree::Text(mount(id, container_path)),
            catalog,
        ) == Tree::Text(mount(id, container_path)),
{
    lemma_split_pair_of_joined(id, container_path, ':');
}

/// `definition_index` is in range, points at an entry of the identifier if
/// at any, and no entry before it has the identifier.
pub proof fn lemma_definition_index(catalog: Seq<VolumeSpec>, id: Seq<char>)
    ensures
        0 <= definition_index(catalog, id) <= catalog.len(),
        definition_index(catalog, id) < catalog.len() ==> catalog[definition_index(
            catalog,
            id,
        )].id == id,
        forall|i: int| 0 <= i < definition_index(catalog, id) ==> (#[trigger] catalog[i]).id != id,
    decreases catalog.len(),
{
    if catalog.len() == 0 || catalog[0].id == id {
    } else {
        let rest = catalog.skip(1);
        lemma_definition_index(rest, id);
        assert forall|i: int| 0 <= i < definition_index(catalog, id) implies (
        #[trigger] catalog[i]).id != id by {
            if i > 0 {
                assert(rest[i - 1] == catalog[i]);
            }
        }
        if definition_index(catalog, id) < catalog.len() {
            assert(rest[definition_index(rest, id)] == catalog[definition_index(catalog, id)]);
        }
    }
}

/// A mapping's entries with the value under the first plain key `key`
/// replaced by `value`; the entries as they are if there is no such key.
pub open spec fn with_value(entries: Seq<(Tree, Tree)>, key: Seq<char>, value: Tree) -> Seq<
    (Tree, Tree),
> {
    let at = key_index(entries, key);
    if at < entries.len() {
        entries.update(at, (entries[at].0, value))
    } else {
        entries
    }
}

/// The value under the first plain key `key`, if there is such a key.
pub open spec fn value_of(entries: Seq<(Tree, Tree)>, key: Seq<char>) -> Option<Tree> {
    let at = key_index(entries, key);
    if at < entries.len() {
        Some(entries[at].1)
    } else {
        None
    }
}

/// One service after resolution: under any tags, a mapping has the value of
/// its `volumes` key resolved; anything else stays as it is.
pub open spec fn resolved_service(service: Tree, catalog: Seq<VolumeSpec>) -> Tree
    decreases service,
{
    match service {
        Tree::Tagged(tag, inner) => Tree::Tagged(tag, Box::new(resolved_service(*inner, catalog))),
        Tree::Mapping(entries) => match value_of(entries, "volumes"@) {
            Some(volumes) => Tree::Mapping(
                with_value(entries, "volumes"@, resolved_volumes(volumes, catalog)),
            ),
            None => service,
        },
        _ => service,
    }
}

/// The unknown identifiers of one service.
pub open spec fn unknown_in_service(service: Tree, catalog: Seq<VolumeSpec>) -> Seq<Seq<char>>
    decreases service,
{
    match service {
        Tree::Tagged(_, inner) => unknown_in_service(*inner, catalog),
        Tree::Mapping(entries) => match value_of(entries, "volumes"@) {
            Some(volumes) => unknown_volumes(volumes, catalog),
            None => seq![],
        },
        _ => seq![],
    }
}

/// The unknown identifiers of a run of services, service after service.
pub open spec fn unknown_in_entries(entries: Seq<(Tree, Tree)>, catalog: Seq<VolumeSpec>) -> Seq<
    Seq<char>,
>
    decreases entries.len(),
{
    if entries.len() == 0 {
        seq![]
    } else {
        unknown_in_entries(entries.drop_last(), catalog) + unknown_in_service(
            entries.last().1,
            catalog,
        )
    }
}

/// The `services` section after resolution: under any tags, each value of a
/// mapping is resolved as a service; anything else stays as it is.
pub open spec fn resolved_services(services: Tree, catalog: Seq<VolumeSpec>) -> Tree
    decreases services,
{
    match services {
        Tree::Tagged(tag, inner) => Tree::Tagged(
            tag,
            Box::new(resolved_services(*inner, catalog)),
        ),
        Tree::Mapping(entries) => Tree::Mapping(
            Seq::new(
                entries.len(),
                |i: int| (entries[i].0, resolved_service(entries[i].1, catalog)),
            ),
        ),
        _ => services,
    }
}

/// The unknown identifiers of the `services` section.
pub open spec fn unknown_in_services(services: Tree, catalog: Seq<VolumeSpec>) -> Seq<Seq<char>>
    decreases services,
{
    match services {
        Tree::Tagged(_, inner) => unknown_in_services(*inner, catalog),
        Tree::Mapping(entries) => unknown_in_entries(entries, catalog),
        _ => seq![],
    }
}

/// A compose document after resolution: under any tags, a mapping has the
/// value of its `services` key resolved; anything else stays as it is.
pub open spec fn resolved_document(document: Tree, catalog: Seq<VolumeSpec>) -> Tree
    decreases document,
{
    match document {
        Tree::Tagged(tag, inner) => Tree::Tagged(
            tag,
            Box::new(resolved_document(*inner, catalog)),
        ),
        Tree::Mapping(entries) => match value_of(entries, "services"@) {
            Some(services) => Tree::Mapping(
                with_value(entries, "services"@, resolved_services(services, catalog)),
            ),
            None => document,
        },
        _ => document,
    }
}

/// The identifiers mounted in a compose document that the catalog does not
/// know, in document order.
pub open spec fn unknown_in_document(document: Tree, catalog: Seq<VolumeSpec>) -> Seq<Seq<char>>
    decreases document,
{
    match document {
        Tree::Tagged(_, inner) => unknown_in_document(*inner, catalog),
        Tree::Mapping(entries) => match value_of(entries, "services"@) {
            Some(services) => unknown_in_services(services, catalog),
            None => seq![],
        },
        _ => seq![],
    }
}

/// Against a catalog without resolved entry, a service's list of mounts
/// stays as it is.
pub proof fn lemma_unresolved_volumes(volumes: Tree, catalog: Seq<VolumeSpec>)
    requires
        forall|i: int| 0 <= i < catalog.len() ==> !(#[trigger] catalog[i]).resolved,
    ensures
        resolved_volumes(volumes, catalog) == volumes,
{
    match volumes {
        Tree::Sequence(entries) => {
            assert forall|i: int| 0 <= i < entries.len() implies resolved_mount(
                entries[i],
                catalog,
            ) == entries[i] by {
                match mount_parts(entries[i]) {
                    Some((id, _)) => {
                        lemma_definition_index(catalog, id);
                    },
                    None => {},
                }
            }
            assert(Seq::new(entries.len(), |i: int| resolved_mount(entries[i], catalog))
                =~= entries);
        },
        _ => {},
    }
}

/// Against a catalog without resolved entry, a service stays as it is.
pub proof fn lemma_unresolved_service(service: Tree, catalog: Seq<VolumeSpec>)
    requires
        forall|i: int| 0 <= i < catalog.len() ==> !(#[trigger] catalog[i]).resolved,
    ensures
        resolved_service(service, catalog) == service,
    decreases service,
{
    match service {
        Tree::Tagged(_, inner) => {
            lemma_unresolved_service(*inner, catalog);
        },
        Tree::Mapping(entries) => {
            match value_of(entries, "volumes"@) {
                Some(volumes) => {
                    lemma_unresolved_volumes(volumes, catalog);
                    lemma_key_index(entries, "volumes"@);
                    assert(with_value(entries, "volumes"@, volumes) =~= entries);
                },
                None => {},
            }
        },
        _ => {},
    }
}

/// Against a catalog without resolved entry, the `services` section stays as
/// it is.
pub proof fn lemma_unresolved_services(services: Tree, catalog: Seq<VolumeSpec>)
    requires
        forall|i: int| 0 <= i < catalog.len() ==> !(#[trigger] catalog[i]).resolved,
    ensures
        resolved_services(services, catalog) == services,
    decreases services,
{
    match services {
        Tree::Tagged(_, inner) => {
            lemma_unresolved_services(*inner, catalog);
        },
        Tree::Mapping(entries) => {
            assert forall|i: int| 0 <= i < entries.len() implies (
                entries[i].0,
                resolved_service(entries[i].1, catalog),
            ) == entries[i] by {
                lemma_unresolved_service(entries[i].1, catalog);
            }
            assert(Seq::new(
                entries.len(),
                |i: int| (entries[i].0, resolved_service(entries[i].1, catalog)),
            ) =~= entries);
        },
        _ => {},
    }
}

/// A compose document stays as it is declared where nothing in the catalog
/// is resolved: a binding without mirror target, or one whose files could
/// not be mirrored, is written into no document.
pub proof fn lemma_unresolved_catalog_leaves_document(document: Tree, catalog: Seq<VolumeSpec>)
    requires
        forall|i: int| 0 <= i < catalog.len() ==> !(#[trigger] catalog[i]).resolved,
    ensures
        resolved_document(document, catalog) == document,
    decreases document,
{
    match document {
        Tree::Tagged(_, inner) => {
            lemma_unresolved_catalog_leaves_document(*inner, catalog);
        },
        Tree::Mapping(entries) => {
            match value_of(entries, "services"@) {
                Some(services) => {
                    lemma_unresolved_services(services, catalog);
                    lemma_key_index(entries, "services"@);
                    assert(with_value(entries, "services"@, services) =~= entries);
                },
                None => {},
            }
        },
        _ => {},
    }
}

/// Takes the path `relative` from the directory `base`.
pub fn join_path(base: &str, relative: &str) -> (path: String)
    ensures
        path@ == joined_path(base@, relative@),
{
    let head = chars_of(relative);
    if head.len() > 0 && head[0] == '/' {
        return relative.to_owned();
    }
    let stem = chars_of(base);
    if stem.len() == 0 || stem[stem.len() - 1] == '/' {
        concat(base, relative)
    } else {
        proof {
            reveal_strlit("/");
            assert("/"@ =~= seq!['/']);
        }
        let stem = concat(base, "/");
        concat(stem.as_str(), relative)
    }
}

/// The step for one catalog entry, before any document is resolved.
pub fn plan_volume(definition: &VolumeDefinition, nfs_config: &Option<NfsConfig>, repo_path: &str) -> (step:
    VolumeStep)
    ensures
        step@ == volume_step(definition@, mirror_root(*nfs_config), repo_path@),
{
    match definition.kind {
        VolumeType::Volume => VolumeStep::EnsureVolume { name: definition.path.clone() },
        VolumeType::Binding => match nfs_config {
            Some(config) => VolumeStep::Mirror {
                source: join_path(repo_path, definition.path.as_str()),
                destination: join_path(config.path.as_str(), definition.id.as_str()),
            },
            None => VolumeStep::SkipBinding,
        },
    }
}

/// The steps for a catalog, one for each entry, in the catalog's order. The
/// steps resolve nothing by themselves: each entry is resolved by the
/// function that settles its step, once the step is taken.
pub fn process_volumes_config(
    definitions: &[VolumeDefinition],
    nfs_config: &Option<NfsConfig>,
    repo_path: &str,
) -> (plan: Vec<VolumeStep>)
    ensures
        plan@.len() == definitions@.len(),
        forall|i: int|
            0 <= i < plan@.len() ==> (#[trigger] plan@[i])@ == volume_step(
                definitions@[i]@,
                mirror_root(*nfs_config),
                repo_path@,
            ),
{
    let mut plan: Vec<VolumeStep> = Vec::new();
    let mut i: usize = 0;
    while i < definitions.len()
        invariant
            i <= definitions.len(),
            plan@.len() == i,
            forall|j: int|
                0 <= j < plan@.len() ==> (#[trigger] plan@[j])@ == volume_step(
                    definitions@[j]@,
                    mirror_root(*nfs_config),
                    repo_path@,
                ),
        decreases definitions.len() - i,
    {
        plan.push(plan_volume(&definitions[i], nfs_config, repo_path));
        i += 1;
    }
    plan
}

/// Settles one binding after its mirroring was tried: where the files were
/// copied, the entry is resolved and its path becomes the destination under
/// the mirror target; else the entry stays as it is, and compose documents
/// stay as they are declared against its identifier. An entry that is no
/// binding stays as it is.
pub fn process_binding_volume(
    volume_def: &mut VolumeDefinition,
    nfs_config: &NfsConfig,
    outcome: MirrorOutcome,
)
    ensures
        final(volume_def)@ == if old(volume_def).kind is Binding && outcome is Copied {
            VolumeSpec {
                path: joined_path(nfs_config.path@, old(volume_def).id@),
                resolved: true,
                ..old(volume_def)@
            }
        } else {
            old(volume_def)@
        },
{
    match (volume_def.kind, outcome) {
        (VolumeType::Binding, MirrorOutcome::Copied) => {
            volume_def.path = join_path(nfs_config.path.as_str(), volume_def.id.as_str());
            volume_def.resolved = true;
        },
        _ => {},
    }
}

/// Settles one Docker volume after the executor was asked to make sure of
/// it: `ensured` says whether the volume exists now. Where it does, the entry
/// is resolved. Where it does not, the failure is handed on as an error, for
/// a deployment against the catalog would fail; the entry stays unresolved.
/// An entry that is no Docker volume stays as it is, without error.
pub fn process_docker_volume(volume_def: &mut VolumeDefinition, ensured: bool) -> (outcome: Result<
    (),
    VolumeError,
>)
    ensures
        final(volume_def)@ == if old(volume_def).kind is Volume && ensured {
            VolumeSpec { resolved: true, ..old(volume_def)@ }
        } else {
            old(volume_def)@
        },
        outcome is Err <==> old(volume_def).kind is Volume && !ensured,
        outcome matches Err(VolumeError::CreationFailed { name }) ==> name@ == old(volume_def).path@,
{
    match volume_def.kind {
        VolumeType::Volume => {
            if ensured {
                volume_def.resolved = true;
                Ok(())
            } else {
                Err(VolumeError::CreationFailed { name: volume_def.path.clone() })
            }
        },
        VolumeType::Binding => Ok(()),
    }
}

/// The name of the first Docker volume of a catalog that is not known to
/// exist, if there is one.
pub fn find_missing_volume(definitions: &[VolumeDefinition]) -> (missing: Option<String>)
    ensures
        match missing {
            Some(name) => missing_volume(catalog(definitions@)) == Some(name@),
            None => missing_volume(catalog(definitions@)) is None,
        },
{
    let mut i: usize = 0;
    assert(catalog(definitions@).skip(0) =~= catalog(definitions@));
    while i < definitions.len()
        invariant
            i <= definitions.len(),
            first_unensured(catalog(definitions@)) == i + first_unensured(
                catalog(definitions@).skip(i as int),
            ),
        decreases definitions.len() - i,
    {
        let ghost rest = catalog(definitions@).skip(i as int);
        assert(rest[0] == definitions@[i as int]@);
        assert(rest.skip(1) =~= catalog(definitions@).skip(i + 1));
        let unensured = match definitions[i].kind {
            VolumeType::Volume => !definitions[i].resolved,
            VolumeType::Binding => false,
        };
        if unensured {
            return Some(definitions[i].path.clone());
        }
        i += 1;
    }
    None
}

/// Position of the first definition with identifier `id`, or the number of
/// definitions if there is none.
pub fn find_definition(definitions: &[VolumeDefinition], id: &str) -> (position: usize)
    ensures
        position == definition_index(catalog(definitions@), id@),
        position <= definitions.len(),
{
    let mut i: usize = 0;
    assert(catalog(definitions@).skip(0) =~= catalog(definitions@));
    while i < definitions.len()
        invariant
            i <= definitions.len(),
            definition_index(catalog(definitions@), id@) == i + definition_index(
                catalog(definitions@).skip(i as int),
                id@,
            ),
        decreases definitions.len() - i,
    {
        let ghost rest = catalog(definitions@).skip(i as int);
        assert(rest[0] == definitions@[i as int]@);
        assert(rest.skip(1) =~= catalog(definitions@).skip(i + 1));
        if same_text(definitions[i].id.as_str(), id) {
            return i;
        }
        i += 1;
    }
    i
}

/// Resolves one mount entry. An identifier that the catalog does not know is
/// added to `unknown` and the entry is handed back as it came; so is,
/// without being added, an entry whose catalog entry is not resolved.
fn resolve_mount(entry: Node, definitions: &[VolumeDefinition], unknown: &mut Vec<String>) -> (resolved:
    Node)
    ensures
        resolved@ == resolved_mount(entry@, catalog(definitions@)),
        texts(final(unknown)@) == texts(old(unknown)@) + match unknown_mount(
            entry@,
            catalog(definitions@),
        ) {
            Some(id) => seq![id],
            None => seq![],
        },
{
    let halves = match entry.as_str() {
        Some(text) => split_once_only(text.as_str(), ':'),
        None => None,
    };
    match halves {
        Some((id, container_path)) => {
            let at = find_definition(definitions, id.as_str());
            if at < definitions.len() && !definitions[at].resolved {
                assert(texts(unknown@) =~= texts(old(unknown)@) + Seq::<Seq<char>>::empty());
                entry
            } else if at < definitions.len() {
                let source = concat(definitions[at].path.as_str(), ":");
                proof {
                    reveal_strlit(":");
                    assert(":"@ =~= seq![':']);
                }
                assert(texts(unknown@) =~= texts(old(unknown)@) + Seq::<Seq<char>>::empty());
                Node::Text(concat(source.as_str(), container_path.as_str()))
            } else {
                unknown.push(id);
                assert(texts(unknown@) =~= texts(old(unknown)@) + seq![id@]);
                entry
            }
        },
        None => {
            assert(texts(unknown@) =~= texts(old(unknown)@) + Seq::<Seq<char>>::empty());
            entry
        },
    }
}

/// Resolves the mounts of one service against the catalog, in place, and
/// returns the identifiers that the catalog does not know: these entries are
/// left as they are, and each is a warning, never an error.
pub fn process_service_volumes(volumes: &mut Node, volumes_definitions: &[VolumeDefinition]) -> (unknown:
    Vec<String>)
    ensures
        final(volumes)@ == resolved_volumes(old(volumes)@, catalog(volumes_definitions@)),
        texts(unknown@) == unknown_volumes(old(volumes)@, catalog(volumes_definitions@)),
{
    let mut unknown: Vec<String> = Vec::new();
    let mut taken = Node::Null;
    std::mem::swap(volumes, &mut taken);
    match taken {
        Node::Sequence(entries) => {
            let ghost before = trees(entries@);
            proof {
                Node::Sequence(entries).lemma_children();
            }
            let mut resolved: Vec<Node> = Vec::new();
            for entry in it: entries
                invariant
                    trees(it.seq()) == before,
                    resolved@.len() == it.index(),
                    forall|i: int|
                        0 <= i < resolved@.len() ==> (#[trigger] resolved@[i])@ == resolved_mount(
                            before[i],
                            catalog(volumes_definitions@),
                        ),
                    texts(unknown@) == unknown_mounts(
                        before.take(it.index() as int),
                        catalog(volumes_definitions@),
                    ),
            {
                let ghost k = it.index() as int;
                assert(before[k] == entry@);
                assert(before.take(k + 1).drop_last() =~= before.take(k));
                let done = resolve_mount(entry, volumes_definitions, &mut unknown);
                resolved.push(done);
            }
            assert(before.take(before.len() as int) =~= before);
            let rebuilt = Node::Sequence(resolved);
            proof {
                rebuilt.lemma_children();
                assert(trees(resolved@) =~= Seq::new(
                    before.len(),
                    |i: int| resolved_mount(before[i], catalog(volumes_definitions@)),
                ));
            }
            *volumes = rebuilt;
        },
        other => {
            *volumes = other;
        },
    }
    unknown
}

/// Resolves the mounts of one service, under any tags.
fn resolve_service(service: Node, definitions: &[VolumeDefinition], unknown: &mut Vec<String>) -> (resolved:
    Node)
    ensures
        resolved@ == resolved_service(service@, catalog(definitions@)),
        texts(final(unknown)@) == texts(old(unknown)@) + unknown_in_service(
            service@,
            catalog(definitions@),
        ),
    decreases service,
{
    match service {
        Node::Tagged(tag, inner) => {
            let resolved = resolve_service(*inner, definitions, unknown);
            Node::Tagged(tag, Box::new(resolved))
        },
        Node::Mapping(mut entries) => {
            let ghost before = entry_trees(entries@);
            proof {
                Node::Mapping(entries).lemma_children();
            }
            let at = find_key(&entries, "volumes");
            if at < entries.len() {
                let (key, mut volumes) = entries.remove(at);
                let mut found = process_service_volumes(&mut volumes, definitions);
                unknown.append(&mut found);
                entries.insert(at, (key, volumes));
                assert(texts(unknown@) =~= texts(old(unknown)@) + unknown_volumes(
                    before[at as int].1,
                    catalog(definitions@),
                ));
            } else {
                assert(texts(unknown@) =~= texts(old(unknown)@) + Seq::<Seq<char>>::empty());
            }
            let rebuilt = Node::Mapping(entries);
            proof {
                rebuilt.lemma_children();
                assert(entry_trees(entries@) =~= match value_of(before, "volumes"@) {
                    Some(volumes) => with_value(
                        before,
                        "volumes"@,
                        resolved_volumes(volumes, catalog(definitions@)),
                    ),
                    None => before,
                });
            }
            rebuilt
        },
        other => {
            assert(texts(unknown@) =~= texts(old(unknown)@) + Seq::<Seq<char>>::empty());
            other
        },
    }
}

/// Resolves every service of the `services` section, under any tags.
fn resolve_services(services: Node, definitions: &[VolumeDefinition], unknown: &mut Vec<String>) -> (resolved:
    Node)
    ensures
        resolved@ == resolved_services(services@, catalog(definitions@)),
        texts(final(unknown)@) == texts(old(unknown)@) + unknown_in_services(
            services@,
            catalog(definitions@),
        ),
    decreases services,
{
    match services {
        Node::Tagged(tag, inner) => {
            let resolved = resolve_services(*inner, definitions, unknown);
            Node::Tagged(tag, Box::new(resolved))
        },
        Node::Mapping(entries) => {
            let ghost before = entry_trees(entries@);
            proof {
                Node::Mapping(entries).lemma_children();
            }
            let mut resolved: Vec<(Node, Node)> = Vec::new();
            assert(texts(unknown@) =~= texts(old(unknown)@) + Seq::<Seq<char>>::empty());
            for entry in it: entries
                invariant
                    entry_trees(it.seq()) == before,
                    resolved@.len() == it.index(),
                    forall|i: int|
                        0 <= i < resolved@.len() ==> {
                            &&& (#[trigger] resolved@[i]).0@ == before[i].0
                            &&& resolved@[i].1@ == resolved_service(
                                before[i].1,
                                catalog(definitions@),
                            )
                        },
                    texts(unknown@) == texts(old(unknown)@) + unknown_in_entries(
                        before.take(it.index() as int),
                        catalog(definitions@),
                    ),
            {
                let ghost k = it.index() as int;
                assert(before[k] == (entry.0@, entry.1@));
                assert(before.take(k + 1).drop_last() =~= before.take(k));
                let (key, service) = entry;
                let done = resolve_service(service, definitions, unknown);
                resolved.push((key, done));
            }
            assert(before.take(before.len() as int) =~= before);
            let rebuilt = Node::Mapping(resolved);
            proof {
                rebuilt.lemma_children();
                assert(entry_trees(resolved@) =~= Seq::new(
                    before.len(),
                    |i: int| (before[i].0, resolved_service(before[i].1, catalog(definitions@))),
                ));
            }
            rebuilt
        },
        other => {
            assert(texts(unknown@) =~= texts(old(unknown)@) + Seq::<Seq<char>>::empty());
            other
        },
    }
}

/// Resolves the `services` section of a document, under any tags.
fn resolve_node(document: Node, definitions: &[VolumeDefinition], unknown: &mut Vec<String>) -> (resolved:
    Node)
    ensures
        resolved@ == resolved_document(document@, catalog(definitions@)),
        texts(final(unknown)@) == texts(old(unknown)@) + unknown_in_document(
            document@,
            catalog(definitions@),
        ),
    decreases document,
{
    match document {
        Node::Tagged(tag, inner) => {
            let resolved = resolve_node(*inner, definitions, unknown);
            Node::Tagged(tag, Box::new(resolved))
        },
        Node::Mapping(mut entries) => {
            let ghost before = entry_trees(entries@);
            proof {
                Node::Mapping(entries).lemma_children();
            }
            let at = find_key(&entries, "services");
            if at < entries.len() {
                let (key, services) = entries.remove(at);
                let resolved = resolve_services(services, definitions, unknown);
                entries.insert(at, (key, resolved));
            } else {
                assert(texts(unknown@) =~= texts(old(unknown)@) + Seq::<Seq<char>>::empty());
            }
            let rebuilt = Node::Mapping(entries);
            proof {
                rebuilt.lemma_children();
                assert(entry_trees(entries@) =~= match value_of(before, "services"@) {
                    Some(services) => with_value(
                        before,
                        "services"@,
                        resolved_services(services, catalog(definitions@)),
                    ),
                    None => before,
                });
            }
            rebuilt
        },
        other => {
            assert(texts(unknown@) =~= texts(old(unknown)@) + Seq::<Seq<char>>::empty());
            other
        },
    }
}

/// Resolves the volume mounts of every service of a parsed compose document
/// against the catalog. Returns the resolved document and, as warnings, the
/// identifiers that the catalog does not know.
pub fn resolve_document(document: Node, volumes_definitions: &[VolumeDefinition]) -> (resolved: (
    Node,
    Vec<String>,
))
    ensures
        resolved.0@ == resolved_document(document@, catalog(volumes_definitions@)),
        texts(resolved.1@) == unknown_in_document(document@, catalog(volumes_definitions@)),
{
    let mut unknown: Vec<String> = Vec::new();
    let resolved = resolve_node(document, volumes_definitions, &mut unknown);
    assert(texts(unknown@) =~= unknown_in_document(document@, catalog(volumes_definitions@)));
    (resolved, unknown)
}

/// Rewrites the text of a compose document so that every volume mount that
/// names a catalog entry points at that entry's path. Returns the new text
/// and, as warnings, the identifiers that the catalog does not know.
///
/// Fails with `Parse` exactly when the text is not one YAML document, and
/// with `Emit` exactly when the resolved document cannot be written.
pub fn process_compose_volumes(compose_content: &str, volumes_definitions: &[VolumeDefinition]) -> (outcome:
    Result<(String, Vec<String>), YamlError>)
    ensures
        match outcome {
            Ok((text, unknown)) => {
                &&& parsed_yaml(compose_content@) matches Some(document)
                &&& emitted_yaml(resolved_document(document, catalog(volumes_definitions@)))
                    == Some(text@)
                &&& texts(unknown@) == unknown_in_document(
                    document,
                    catalog(volumes_definitions@),
                )
            },
            Err(YamlError::Parse(_)) => parsed_yaml(compose_content@) is None,
            Err(YamlError::Emit(_)) => {
                &&& parsed_yaml(compose_content@) matches Some(document)
                &&& emitted_yaml(resolved_document(document, catalog(volumes_definitions@)))
                    is None
            },
        },
{
    match parse_document(compose_content) {
        Ok(document) => {
            let (resolved, unknown) = resolve_document(document, volumes_definitions);
            match emit_document(&resolved) {
                Ok(text) => Ok((text, unknown)),
                Err(error) => Err(error),
            }
        },
        Err(error) => Err(error),
    }
}

} // verus!
