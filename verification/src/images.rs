//! Image references: finding them in compose documents, and taking a
//! reference apart into registry host, repository path and tag.

use crate::document::{entry_trees, trees, Node, Tree};
use crate::text::{
    chars_of, concat, contains_char, find, find_char, find_last, lemma_find_last, same_text,
    split_at_last, split_last, substring, texts,
};
use vstd::prelude::*;

verus! {

/// The image that one mapping entry names: the text of its value, where its
/// key is the string `image` and its value a string that is not empty.
pub open spec fn named_image(key: Tree, value: Tree) -> Option<Seq<char>> {
    if key.as_text() == Some("image"@) {
        match value.as_text() {
            Some(name) => if name.len() > 0 {
                Some(name)
            } else {
                None
            },
            None => None,
        }
    } else {
        None
    }
}

/// Every image reference in a document, in document order, each as often as
/// it occurs. The search goes through mappings and sequences to any depth;
/// it does not go below a tag.
pub open spec fn images_in(tree: Tree) -> Seq<Seq<char>>
    decreases tree,
{
    match tree {
        Tree::Mapping(entries) => images_in_entries(entries),
        Tree::Sequence(items) => images_in_items(items),
        _ => seq![],
    }
}

/// The image references in the entries of a mapping.
pub open spec fn images_in_entries(entries: Seq<(Tree, Tree)>) -> Seq<Seq<char>>
    decreases entries,
{
    if entries.len() == 0 {
        seq![]
    } else {
        images_in_entries(entries.drop_last()) + images_in_entry(entries.last())
    }
}

/// The image references of one mapping entry: the image that the entry
/// names, or else whatever its value holds.
pub open spec fn images_in_entry(entry: (Tree, Tree)) -> Seq<Seq<char>>
    decreases entry,
{
    match named_image(entry.0, entry.1) {
        Some(name) => seq![name],
        None => images_in(entry.1),
    }
}

/// The image references in the items of a sequence.
pub open spec fn images_in_items(items: Seq<Tree>) -> Seq<Seq<char>>
    decreases items,
{
    if items.len() == 0 {
        seq![]
    } else {
        images_in_items(items.drop_last()) + images_in(items.last())
    }
}

/// Appends to `images` every image reference of the document `value`, in
/// document order.
pub fn extract_images_from_yaml(value: &Node, images: &mut Vec<String>)
    ensures
        texts(final(images)@) == texts(old(images)@) + images_in(value@),
    decreases value,
{
    proof {
        value.lemma_children();
    }
    match value {
        Node::Mapping(entries) => {
            let ghost all = entry_trees(entries@);
            let mut i: usize = 0;
            assert(texts(images@) =~= texts(old(images)@) + images_in_entries(all.take(0)));
            while i < entries.len()
                invariant
                    i <= entries.len(),
                    value == Node::Mapping(*entries),
                    all == entry_trees(entries@),
                    texts(images@) == texts(old(images)@) + images_in_entries(all.take(i as int)),
                decreases entries.len() - i,
            {
                let ghost seen = texts(images@);
                assert(all.take(i + 1).drop_last() =~= all.take(i as int));
                assert(all.take(i + 1).last() == all[i as int]);
                let ghost found = images_in_entry(all[i as int]);
                let is_image = match entries[i].0.as_str() {
                    Some(key) => same_text(key.as_str(), "image"),
                    None => false,
                };
                let named = match entries[i].1.as_str() {
                    Some(name) => is_image && !name.as_str().is_empty(),
                    None => false,
                };
                if named {
                    match entries[i].1.as_str() {
                        Some(name) => {
                            images.push(name.clone());
                        },
                        None => {},
                    }
                } else {
                    assert(decreases_to!(value => value->Mapping_0));
                    assert(decreases_to!(entries => entries[i as int]));
                    extract_images_from_yaml(&entries[i].1, images);
                }
                assert(texts(images@) =~= seen + found);
                i += 1;
            }
            assert(all.take(i as int) =~= all);
        },
        Node::Sequence(items) => {
            let ghost all = trees(items@);
            let mut i: usize = 0;
            assert(texts(images@) =~= texts(old(images)@) + images_in_items(all.take(0)));
            while i < items.len()
                invariant
                    i <= items.len(),
                    value == Node::Sequence(*items),
                    all == trees(items@),
                    texts(images@) == texts(old(images)@) + images_in_items(all.take(i as int)),
                decreases items.len() - i,
            {
                assert(all.take(i + 1).drop_last() =~= all.take(i as int));
                assert(all.take(i + 1).last() == all[i as int]);
                assert(decreases_to!(value => value->Sequence_0));
                assert(decreases_to!(items => items[i as int]));
                extract_images_from_yaml(&items[i], images);
                i += 1;
            }
            assert(all.take(i as int) =~= all);
        },
        _ => {
            assert(texts(images@) =~= texts(old(images)@) + Seq::<Seq<char>>::empty());
        },
    }
}

/// Whether the first segment of a repository path names a registry host: it
/// holds a dot, or it is `localhost`.
pub open spec fn is_registry_host(segment: Seq<char>) -> bool {
    segment.contains('.') || segment == "localhost"@
}

/// Registry host, repository path and tag of an image reference.
///
/// A reference with a colon is cut at its last colon into path and tag; a
/// reference without one is all path, and its tag is `latest`. A path whose first
/// segment names a registry host gives that host and the rest of the path;
/// any other path is on the default registry. On the default registry a path
/// without a slash belongs to the namespace `library`.
pub open spec fn parsed_image(name: Seq<char>) -> (Seq<char>, Seq<char>, Seq<char>) {
    let (path, tag) = match split_last(name, ':') {
        Some(halves) => halves,
        None => (name, "latest"@),
    };
    let slash = find(path, '/');
    let (registry, rest) = if slash < path.len() && is_registry_host(path.take(slash)) {
        (path.take(slash), path.skip(slash + 1))
    } else {
        ("registry-1.docker.io"@, path)
    };
    let repository = if registry == "registry-1.docker.io"@ && !rest.contains('/') {
        "library/"@ + rest
    } else {
        rest
    };
    (registry, repository, tag)
}

/// The tag of a reference that holds a colon is what follows its last colon,
/// and so holds no colon itself.
pub proof fn lemma_tag_after_last_colon(name: Seq<char>)
    requires
        name.contains(':'),
    ensures
        parsed_image(name).2 == name.skip(find_last(name, ':') + 1),
        !parsed_image(name).2.contains(':'),
{
    lemma_find_last(name, ':');
    let at = find_last(name, ':');
    let tag = name.skip(at + 1);
    if tag.contains(':') {
        let i = choose|i: int| 0 <= i < tag.len() && tag[i] == ':';
        assert(name[at + 1 + i] == ':');
    }
}

/// Takes an image reference apart into registry host, repository path and tag.
pub fn parse_image_name(image_name: &str) -> (parts: (String, String, String))
    ensures
        (parts.0@, parts.1@, parts.2@) == parsed_image(image_name@),
{
    let (path, tag) = match split_at_last(image_name, ':') {
        Some(halves) => halves,
        None => (image_name.to_owned(), "latest".to_owned()),
    };
    let chars = chars_of(path.as_str());
    let slash = find_char(chars.as_slice(), '/');
    let mut registry = "registry-1.docker.io".to_owned();
    let mut repository = path;
    if slash < chars.len() {
        let head = substring(chars.as_slice(), 0, slash);
        if contains_char(head.as_str(), '.') || same_text(head.as_str(), "localhost") {
            registry = head;
            repository = substring(chars.as_slice(), slash + 1, chars.len());
        }
    }
    if same_text(registry.as_str(), "registry-1.docker.io") && !contains_char(
        repository.as_str(),
        '/',
    ) {
        repository = concat("library/", repository.as_str());
    }
    (registry, repository, tag)
}

/// The address at which a registry answers for the manifest of an image.
pub open spec fn manifest_address(registry: Seq<char>, repository: Seq<char>, tag: Seq<char>) -> Seq<
    char,
> {
    "https://"@ + registry + "/v2/"@ + repository + "/manifests/"@ + tag
}

/// The address to probe for the remote digest of an image.
pub fn manifest_url(registry: &str, repository: &str, tag: &str) -> (url: String)
    ensures
        url@ == manifest_address(registry@, repository@, tag@),
{
    let url = concat("https://", registry);
    let url = concat(url.as_str(), "/v2/");
    let url = concat(url.as_str(), repository);
    let url = concat(url.as_str(), "/manifests/");
    concat(url.as_str(), tag)
}

/// What is to be done about an image that is still referenced.
#[derive(Clone, Copy, Debug, PartialEq, Eq, Structural)]
pub enum Refresh {
    /// The local and the remote digest agree.
    UpToDate,
    /// The image is here and the registry gave no digest.
    RemoteUnknown,
    /// The image is not here.
    Fetch,
    /// The local and the remote digest differ.
    Replace,
}

/// A command for the executor, about one image.
#[derive(Clone, Copy, Debug, PartialEq, Eq, Structural)]
pub enum ImageCommand {
    Remove,
    Pull,
}

/// The verdict on an image from its local and its remote digest.
pub open spec fn refresh_of(local: Option<Seq<char>>, remote: Option<Seq<char>>) -> Refresh {
    match (local, remote) {
        (None, _) => Refresh::Fetch,
        (Some(_), None) => Refresh::RemoteUnknown,
        (Some(here), Some(there)) => if here == there {
            Refresh::UpToDate
        } else {
            Refresh::Replace
        },
    }
}

/// The text of a string that may be absent.
pub open spec fn text_of(string: Option<String>) -> Option<Seq<char>> {
    match string {
        Some(s) => Some(s@),
        None => None,
    }
}

impl Refresh {
    /// The commands that carry a verdict out, in order.
    pub open spec fn spec_commands(self) -> Seq<ImageCommand> {
        match self {
            Refresh::Replace => seq![ImageCommand::Remove, ImageCommand::Pull],
            Refresh::Fetch => seq![ImageCommand::Pull],
            _ => seq![],
        }
    }

    /// The commands that carry this verdict out, in order.
    pub fn commands(self) -> (commands: Vec<ImageCommand>)
        ensures
            commands@ == self.spec_commands(),
    {
        let mut commands: Vec<ImageCommand> = Vec::new();
        match self {
            Refresh::Replace => {
                commands.push(ImageCommand::Remove);
                commands.push(ImageCommand::Pull);
            },
            Refresh::Fetch => {
                commands.push(ImageCommand::Pull);
            },
            _ => {},
        }
        assert(commands@ =~= self.spec_commands());
        commands
    }
}

/// Decides what to do about a referenced image, given the digest of the
/// local artifact and the digest that the registry reports, each absent
/// where it could not be had.
pub fn check_and_update_image(local_sha: &Option<String>, remote_sha: &Option<String>) -> (verdict:
    Refresh)
    ensures
        verdict == refresh_of(text_of(*local_sha), text_of(*remote_sha)),
{
    match local_sha {
        None => Refresh::Fetch,
        Some(here) => match remote_sha {
            None => Refresh::RemoteUnknown,
            Some(there) => if same_text(here.as_str(), there.as_str()) {
                Refresh::UpToDate
            } else {
                Refresh::Replace
            },
        },
    }
}

/// Digests that differ lead to exactly one removal followed by one pull;
/// digests that agree lead to no command at all.
pub proof fn lemma_refresh_by_digest(local: Seq<char>, remote: Seq<char>)
    ensures
        local != remote ==> refresh_of(Some(local), Some(remote)).spec_commands() == seq![
            ImageCommand::Remove,
            ImageCommand::Pull,
        ],
        local == remote ==> refresh_of(Some(local), Some(remote)).spec_commands() == Seq::<
            ImageCommand,
        >::empty(),
{
}

} // verus!
