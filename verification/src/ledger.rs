//! The image ledger of one reconciliation pass: which images are known, and
//! how often the compose documents of this pass refer to each.
//!
//! Counts are never carried from one pass to the next: a pass starts by
//! setting every count to zero, counts each sighting as it goes, and ends by
//! dropping the images that nothing referred to.

use crate::document::{parse_document, parsed_yaml, Node, YamlError};
use crate::images::{extract_images_from_yaml, images_in};
use crate::text::{
    comes_before, lemma_precedes_total, lemma_precedes_transitive, precedes, same_text, texts,
};
use vstd::prelude::*;

verus! {

/// An image and the number of references to it.
#[derive(Clone, Debug, PartialEq, Eq)]
pub struct Image {
    /// The reference, as compose documents write it.
    pub name: String,
    pub reference_count: u64,
}

/// The mathematical value of an image record.
pub ghost struct ImageSpec {
    pub name: Seq<char>,
    pub reference_count: nat,
}

impl View for Image {
    type V = ImageSpec;

    open spec fn view(&self) -> ImageSpec {
        ImageSpec { name: self.name@, reference_count: self.reference_count as nat }
    }
}

impl Image {
    /// The record of the image `name` with `reference_count` references.
    pub fn new(name: String, reference_count: u64) -> (image: Image)
        ensures
            image.name == name,
            image.reference_count == reference_count,
    {
        Image { name, reference_count }
    }
}

/// The values of a run of image records.
pub open spec fn records(images: Seq<Image>) -> Seq<ImageSpec> {
    Seq::new(images.len(), |i: int| images[i]@)
}

/// Position of the first record of the image `name`, or the number of records
/// if there is none.
pub open spec fn position(records: Seq<ImageSpec>, name: Seq<char>) -> int
    decreases records.len(),
{
    if records.len() == 0 || records[0].name == name {
        0
    } else {
        1 + position(records.skip(1), name)
    }
}

/// Whether the image `name` has a record.
pub open spec fn has_image(records: Seq<ImageSpec>, name: Seq<char>) -> bool {
    position(records, name) < records.len()
}

/// The reference count on record for the image `name`; zero if it has none.
pub open spec fn count_of(records: Seq<ImageSpec>, name: Seq<char>) -> nat {
    if has_image(records, name) {
        records[position(records, name)].reference_count
    } else {
        0
    }
}

/// No two records are of the same image.
pub open spec fn distinct_names(records: Seq<ImageSpec>) -> bool {
    forall|i: int, j: int|
        0 <= i < j < records.len() ==> (#[trigger] records[i]).name != (#[trigger] records[j]).name
}

/// A count with one more reference. The counter holds at its largest value.
pub open spec fn bumped(count: nat) -> nat {
    if count < u64::MAX {
        count + 1
    } else {
        count
    }
}

/// The records after one sighting of the image `name`: its count goes up by
/// one, or it gets a record with count one at the end.
pub open spec fn sighted(records: Seq<ImageSpec>, name: Seq<char>) -> Seq<ImageSpec> {
    let at = position(records, name);
    if at < records.len() {
        records.update(at, ImageSpec { name, reference_count: bumped(records[at].reference_count) })
    } else {
        records.push(ImageSpec { name, reference_count: 1 })
    }
}

/// The records after a run of sightings, one after the other.
pub open spec fn tallied(records: Seq<ImageSpec>, sightings: Seq<Seq<char>>) -> Seq<ImageSpec>
    decreases sightings.len(),
{
    if sightings.len() == 0 {
        records
    } else {
        sighted(tallied(records, sightings.drop_last()), sightings.last())
    }
}

/// The same records with every count at zero.
pub open spec fn zeroed(records: Seq<ImageSpec>) -> Seq<ImageSpec> {
    Seq::new(records.len(), |i: int| ImageSpec { name: records[i].name, reference_count: 0 })
}

/// The records with a count above zero, in their order.
pub open spec fn referenced(records: Seq<ImageSpec>) -> Seq<ImageSpec>
    decreases records.len(),
{
    if records.len() == 0 {
        records
    } else if records.last().reference_count > 0 {
        referenced(records.drop_last()).push(records.last())
    } else {
        referenced(records.drop_last())
    }
}

/// `position` is in range, points at a record of `name` if at any, and no
/// record before it is of `name`.
pub proof fn lemma_position(records: Seq<ImageSpec>, name: Seq<char>)
    ensures
        0 <= position(records, name) <= records.len(),
        has_image(records, name) ==> records[position(records, name)].name == name,
        forall|i: int| 0 <= i < position(records, name) ==> (#[trigger] records[i]).name != name,
    decreases records.len(),
{
    if records.len() == 0 || records[0].name == name {
    } else {
        let rest = records.skip(1);
        lemma_position(rest, name);
        assert forall|i: int| 0 <= i < position(records, name) implies (#[trigger] records[i]).name
            != name by {
            if i > 0 {
                assert(rest[i - 1] == records[i]);
            }
        }
        if has_image(records, name) {
            assert(rest[position(rest, name)] == records[position(records, name)]);
        }
    }
}

/// The position of `name` is `at` if a record of `name` stands at `at` and
/// none before, or if `at` is the number of records and none is of `name`.
pub proof fn lemma_position_is(records: Seq<ImageSpec>, name: Seq<char>, at: int)
    requires
        0 <= at <= records.len(),
        forall|i: int| 0 <= i < at ==> (#[trigger] records[i]).name != name,
        at < records.len() ==> records[at].name == name,
    ensures
        position(records, name) == at,
{
    lemma_position(records, name);
    let p = position(records, name);
    if p < at {
        assert(records[p].name != name);
    } else if p > at {
        assert(records[at].name != name);
    }
}

/// Dropping the unreferenced records keeps the rest in order: what is kept
/// is on record with the count it had, and nothing else is.
pub proof fn lemma_referenced(records: Seq<ImageSpec>)
    requires
        distinct_names(records),
    ensures
        distinct_names(referenced(records)),
        forall|i: int|
            0 <= i < referenced(records).len() ==> records.contains(
                #[trigger] referenced(records)[i],
            ) && referenced(records)[i].reference_count > 0,
        forall|i: int|
            0 <= i < records.len() && records[i].reference_count > 0 ==> referenced(
                records,
            ).contains(#[trigger] records[i]),
    decreases records.len(),
{
    if records.len() == 0 {
    } else {
        let front = records.drop_last();
        let last = records.last();
        lemma_referenced(front);
        let kept = referenced(front);
        assert forall|i: int| 0 <= i < kept.len() implies records.contains(#[trigger] kept[i]) by {
            let j = choose|j: int| 0 <= j < front.len() && front[j] == kept[i];
            assert(records[j] == kept[i]);
        }
        if last.reference_count > 0 {
            let all = kept.push(last);
            assert(records[records.len() - 1] == last);
            assert forall|i: int, j: int| 0 <= i < j < all.len() implies (#[trigger] all[i]).name != (
            #[trigger] all[j]).name by {
                if j == kept.len() {
                    let k = choose|k: int| 0 <= k < front.len() && front[k] == kept[i];
                    assert(records[k].name != records[records.len() - 1].name);
                }
            }
            assert forall|i: int| 0 <= i < records.len() && records[i].reference_count > 0 implies all.contains(
                #[trigger] records[i],
            ) by {
                if i < front.len() {
                    assert(front[i] == records[i]);
                    let k = choose|k: int| 0 <= k < kept.len() && kept[k] == front[i];
                    assert(all[k] == records[i]);
                } else {
                    assert(all[kept.len() as int] == records[i]);
                }
            }
        } else {
            assert forall|i: int| 0 <= i < records.len() && records[i].reference_count > 0 implies kept.contains(
                #[trigger] records[i],
            ) by {
                assert(front[i] == records[i]);
            }
        }
    }
}

/// Number of times `name` occurs among `sightings`.
pub open spec fn occurrences(sightings: Seq<Seq<char>>, name: Seq<char>) -> nat
    decreases sightings.len(),
{
    if sightings.len() == 0 {
        0
    } else {
        occurrences(sightings.drop_last(), name) + (if sightings.last() == name {
            1nat
        } else {
            0nat
        })
    }
}

/// A number of references as the counter shows it: itself, up to the
/// counter's largest value.
pub open spec fn saturated(n: nat) -> nat {
    if n <= u64::MAX {
        n
    } else {
        u64::MAX as nat
    }
}

/// The image lists of a run of documents, one after the other.
pub open spec fn all_sightings(documents: Seq<Seq<Seq<char>>>) -> Seq<Seq<char>>
    decreases documents.len(),
{
    if documents.len() == 0 {
        seq![]
    } else {
        all_sightings(documents.drop_last()) + documents.last()
    }
}

/// Number of documents whose image list holds `name`.
pub open spec fn referencing(documents: Seq<Seq<Seq<char>>>, name: Seq<char>) -> nat
    decreases documents.len(),
{
    if documents.len() == 0 {
        0
    } else {
        referencing(documents.drop_last(), name) + (if documents.last().contains(name) {
            1nat
        } else {
            0nat
        })
    }
}

/// One sighting changes the record of the sighted image and no other.
pub proof fn lemma_sighted(records: Seq<ImageSpec>, name: Seq<char>, other: Seq<char>)
    requires
        distinct_names(records),
    ensures
        distinct_names(sighted(records, name)),
        has_image(sighted(records, name), other) <==> has_image(records, other) || other == name,
        count_of(sighted(records, name), other) == if other == name {
            bumped(count_of(records, other))
        } else {
            count_of(records, other)
        },
{
    let after = sighted(records, name);
    let at = position(records, name);
    let was = position(records, other);
    lemma_position(records, name);
    lemma_position(records, other);
    if at < records.len() {
        assert forall|i: int, j: int| 0 <= i < j < after.len() implies (#[trigger] after[i]).name != (
        #[trigger] after[j]).name by {
            assert(after[i].name == records[i].name);
            assert(after[j].name == records[j].name);
        }
        assert forall|i: int| 0 <= i < was implies (#[trigger] after[i]).name != other by {
            assert(after[i].name == records[i].name);
        }
        if was < records.len() {
            assert(after[was].name == records[was].name);
        }
        lemma_position_is(after, other, was);
    } else {
        assert forall|i: int, j: int| 0 <= i < j < after.len() implies (#[trigger] after[i]).name != (
        #[trigger] after[j]).name by {
            if j == records.len() {
                assert(records[i].name != name);
            } else {
                assert(after[i] == records[i] && after[j] == records[j]);
            }
        }
        assert forall|i: int| 0 <= i < was implies (#[trigger] after[i]).name != other by {
            assert(after[i] == records[i]);
        }
        if was < records.len() {
            assert(after[was] == records[was]);
            lemma_position_is(after, other, was);
        } else if other == name {
            lemma_position_is(after, other, was);
        } else {
            assert(after[was].name != other);
            lemma_position_is(after, other, was + 1);
        }
    }
}

/// A run of sightings adds to each image's count the number of its
/// sightings, and gives a record to each sighted image that had none.
pub proof fn lemma_tallied(records: Seq<ImageSpec>, sightings: Seq<Seq<char>>, name: Seq<char>)
    requires
        distinct_names(records),
        count_of(records, name) <= u64::MAX,
    ensures
        distinct_names(tallied(records, sightings)),
        has_image(tallied(records, sightings), name) <==> has_image(records, name) || occurrences(
            sightings,
            name,
        ) > 0,
        count_of(tallied(records, sightings), name) == saturated(
            count_of(records, name) + occurrences(sightings, name),
        ),
    decreases sightings.len(),
{
    if sightings.len() > 0 {
        lemma_tallied(records, sightings.drop_last(), name);
        lemma_sighted(tallied(records, sightings.drop_last()), sightings.last(), name);
    }
}

/// Sightings may be counted in one run or in two.
pub proof fn lemma_tallied_in_parts(
    records: Seq<ImageSpec>,
    first: Seq<Seq<char>>,
    second: Seq<Seq<char>>,
)
    ensures
        tallied(tallied(records, first), second) == tallied(records, first + second),
    decreases second.len(),
{
    if second.len() == 0 {
        assert(first + second =~= first);
    } else {
        lemma_tallied_in_parts(records, first, second.drop_last());
        assert((first + second).drop_last() =~= first + second.drop_last());
        assert((first + second).last() == second.last());
    }
}

/// Setting the counts to zero keeps the records and their order.
pub proof fn lemma_zeroed(records: Seq<ImageSpec>, name: Seq<char>)
    requires
        distinct_names(records),
    ensures
        distinct_names(zeroed(records)),
        has_image(zeroed(records), name) <==> has_image(records, name),
        count_of(zeroed(records), name) == 0,
{
    let after = zeroed(records);
    lemma_position(records, name);
    let at = position(records, name);
    assert forall|i: int| 0 <= i < at implies (#[trigger] after[i]).name != name by {
        assert(after[i].name == records[i].name);
    }
    lemma_position_is(after, name, at);
    assert forall|i: int, j: int| 0 <= i < j < after.len() implies (#[trigger] after[i]).name != (
    #[trigger] after[j]).name by {
        assert(after[i].name == records[i].name);
        assert(after[j].name == records[j].name);
    }
}

/// After the unreferenced records are dropped, an image is on record exactly
/// if its count was above zero, and with that count.
pub proof fn lemma_referenced_counts(records: Seq<ImageSpec>, name: Seq<char>)
    requires
        distinct_names(records),
    ensures
        has_image(referenced(records), name) <==> count_of(records, name) > 0,
        count_of(referenced(records), name) == count_of(records, name),
{
    let kept = referenced(records);
    lemma_referenced(records);
    lemma_position(records, name);
    lemma_position(kept, name);
    let at = position(records, name);
    let to = position(kept, name);
    if to < kept.len() {
        assert(records.contains(kept[to]));
        let k = choose|k: int| 0 <= k < records.len() && records[k] == kept[to];
        if k != at {
            if at < records.len() {
                assert(records[at].name == records[k].name);
            } else {
                assert(records[k].name != name);
            }
        }
    } else if at < records.len() && records[at].reference_count > 0 {
        assert(kept.contains(records[at]));
        let k = choose|k: int| 0 <= k < kept.len() && kept[k] == records[at];
        assert(kept[k].name != name);
    }
}

/// With every count at zero, no record is referenced.
pub proof fn lemma_referenced_of_zeroed(records: Seq<ImageSpec>)
    ensures
        referenced(zeroed(records)) == Seq::<ImageSpec>::empty(),
    decreases records.len(),
{
    if records.len() > 0 {
        lemma_referenced_of_zeroed(records.drop_last());
        assert(zeroed(records).drop_last() =~= zeroed(records.drop_last()));
    }
}

/// Reference counts are conserved. Whatever was on record before a pass, the
/// pass ends with exactly the images that its documents refer to, each with
/// the number of its sightings as its count; an image that nothing refers to
/// is gone.
pub proof fn lemma_reference_counts_conserved(
    persisted: Seq<ImageSpec>,
    sightings: Seq<Seq<char>>,
    name: Seq<char>,
)
    requires
        distinct_names(persisted),
    ensures
        distinct_names(referenced(tallied(zeroed(persisted), sightings))),
        count_of(referenced(tallied(zeroed(persisted), sightings)), name) == saturated(
            occurrences(sightings, name),
        ),
        has_image(referenced(tallied(zeroed(persisted), sightings)), name) <==> occurrences(
            sightings,
            name,
        ) > 0,
{
    lemma_zeroed(persisted, name);
    lemma_tallied(zeroed(persisted), sightings, name);
    lemma_referenced_counts(tallied(zeroed(persisted), sightings), name);
    lemma_referenced(tallied(zeroed(persisted), sightings));
}

/// Sightings add up over the lists they come in.
pub proof fn lemma_occurrences_in_parts(first: Seq<Seq<char>>, second: Seq<Seq<char>>, name: Seq<char>)
    ensures
        occurrences(first + second, name) == occurrences(first, name) + occurrences(second, name),
    decreases second.len(),
{
    if second.len() == 0 {
        assert(first + second =~= first);
    } else {
        lemma_occurrences_in_parts(first, second.drop_last(), name);
        assert((first + second).drop_last() =~= first + second.drop_last());
        assert((first + second).last() == second.last());
    }
}

/// In a list that names no image twice, an image occurs once or not at all.
pub proof fn lemma_occurrences_without_duplicates(list: Seq<Seq<char>>, name: Seq<char>)
    requires
        list.no_duplicates(),
    ensures
        occurrences(list, name) == if list.contains(name) {
            1nat
        } else {
            0nat
        },
    decreases list.len(),
{
    if list.len() > 0 {
        let front = list.drop_last();
        lemma_occurrences_without_duplicates(front, name);
        if front.contains(name) {
            let i = choose|i: int| 0 <= i < front.len() && front[i] == name;
            assert(list[i] == name);
            assert(list[list.len() - 1] != list[i]);
        } else if list.contains(name) {
            let i = choose|i: int| 0 <= i < list.len() && list[i] == name;
            if i < front.len() {
                assert(front[i] == name);
            }
        }
        if list.last() == name {
            assert(list[list.len() - 1] == name);
        }
    }
}

/// Where no document names an image twice, the sightings of an image are as
/// many as the documents that refer to it.
pub proof fn lemma_occurrences_by_document(documents: Seq<Seq<Seq<char>>>, name: Seq<char>)
    requires
        forall|i: int| 0 <= i < documents.len() ==> (#[trigger] documents[i]).no_duplicates(),
    ensures
        occurrences(all_sightings(documents), name) == referencing(documents, name),
    decreases documents.len(),
{
    if documents.len() > 0 {
        let front = documents.drop_last();
        assert forall|i: int| 0 <= i < front.len() implies (#[trigger] front[i]).no_duplicates() by {
            assert(front[i] == documents[i]);
        }
        lemma_occurrences_by_document(front, name);
        lemma_occurrences_in_parts(all_sightings(front), documents.last(), name);
        assert(documents[documents.len() - 1].no_duplicates());
        lemma_occurrences_without_duplicates(documents.last(), name);
    }
}

/// Number of records at the head of `ordered` whose names come before
/// `name` or are `name`: the place of a record of `name` after them.
pub open spec fn rank(ordered: Seq<ImageSpec>, name: Seq<char>) -> int
    decreases ordered.len(),
{
    if ordered.len() == 0 || !precedes(ordered[0].name, name) {
        0
    } else {
        1 + rank(ordered.skip(1), name)
    }
}

/// The records listed by name, in ascending order.
pub open spec fn by_name(records: Seq<ImageSpec>) -> Seq<ImageSpec>
    decreases records.len(),
{
    if records.len() == 0 {
        records
    } else {
        let listed = by_name(records.drop_last());
        listed.insert(rank(listed, records.last().name), records.last())
    }
}

/// Every record's name comes before, or is, the name of each record after
/// it.
pub open spec fn ascending(records: Seq<ImageSpec>) -> bool {
    forall|i: int, j: int|
        0 <= i < j < records.len() ==> precedes(
            (#[trigger] records[i]).name,
            (#[trigger] records[j]).name,
        )
}

/// In an ascending run, the rank of a name parts the records that come
/// before it from those that come after.
pub proof fn lemma_rank(ordered: Seq<ImageSpec>, name: Seq<char>)
    requires
        ascending(ordered),
    ensures
        0 <= rank(ordered, name) <= ordered.len(),
        forall|i: int| 0 <= i < rank(ordered, name) ==> precedes((#[trigger] ordered[i]).name, name),
        forall|i: int|
            rank(ordered, name) <= i < ordered.len() ==> precedes(name, (#[trigger] ordered[i]).name),
    decreases ordered.len(),
{
    if ordered.len() == 0 {
    } else if !precedes(ordered[0].name, name) {
        lemma_precedes_total(ordered[0].name, name);
        assert forall|i: int| 0 <= i < ordered.len() implies precedes(
            name,
            (#[trigger] ordered[i]).name,
        ) by {
            if i > 0 {
                lemma_precedes_transitive(name, ordered[0].name, ordered[i].name);
            }
        }
    } else {
        let rest = ordered.skip(1);
        assert forall|i: int, j: int| 0 <= i < j < rest.len() implies precedes(
            (#[trigger] rest[i]).name,
            (#[trigger] rest[j]).name,
        ) by {
            assert(rest[i] == ordered[i + 1] && rest[j] == ordered[j + 1]);
        }
        lemma_rank(rest, name);
        assert forall|i: int| 0 <= i < rank(ordered, name) implies precedes(
            (#[trigger] ordered[i]).name,
            name,
        ) by {
            if i > 0 {
                assert(rest[i - 1] == ordered[i]);
            }
        }
        assert forall|i: int| rank(ordered, name) <= i < ordered.len() implies precedes(
            name,
            (#[trigger] ordered[i]).name,
        ) by {
            assert(rest[i - 1] == ordered[i]);
        }
    }
}

/// The listing by name holds every record once, none besides, and is in
/// ascending order of the names.
pub proof fn lemma_by_name(records: Seq<ImageSpec>)
    ensures
        by_name(records).len() == records.len(),
        by_name(records).to_multiset() == records.to_multiset(),
        ascending(by_name(records)),
    decreases records.len(),
{
    if records.len() == 0 {
    } else {
        let front = records.drop_last();
        let last = records.last();
        let listed = by_name(front);
        lemma_by_name(front);
        lemma_rank(listed, last.name);
        let at = rank(listed, last.name);
        let all = listed.insert(at, last);
        listed.insert_ensures(at, last);
        vstd::seq_lib::to_multiset_insert(listed, at, last);
        vstd::seq_lib::to_multiset_build(front, last);
        assert(front.push(last) =~= records);
        assert forall|i: int, j: int| 0 <= i < j < all.len() implies precedes(
            (#[trigger] all[i]).name,
            (#[trigger] all[j]).name,
        ) by {
            if j < at {
                assert(all[i] == listed[i] && all[j] == listed[j]);
            } else if j == at {
                assert(all[i] == listed[i] && all[j] == last);
            } else if i < at {
                assert(all[i] == listed[i] && all[j] == listed[j - 1]);
            } else if i == at {
                assert(all[i] == last && all[j] == listed[j - 1]);
            } else {
                assert(all[i] == listed[i - 1] && all[j] == listed[j - 1]);
            }
        }
    }
}

/// What the sweep at the end of a pass does about one image.
#[derive(Clone, Copy, Debug, PartialEq, Eq, Structural)]
pub enum SweepStep {
    /// Nothing refers to the image: its artifact is removed, then its record.
    Evict,
    /// The image is referenced: it is checked against its registry.
    Check,
}

/// The sweep over a run of records: one step for each record, in their
/// order.
pub open spec fn sweep_of(records: Seq<ImageSpec>) -> Seq<(Seq<char>, SweepStep)> {
    Seq::new(
        records.len(),
        |i: int|
            (
                records[i].name,
                if records[i].reference_count == 0 {
                    SweepStep::Evict
                } else {
                    SweepStep::Check
                },
            ),
    )
}

/// The values of a run of sweep steps.
pub open spec fn steps(sweep: Seq<(String, SweepStep)>) -> Seq<(Seq<char>, SweepStep)> {
    Seq::new(sweep.len(), |i: int| (sweep[i].0@, sweep[i].1))
}

/// The image ledger of one pass.
pub struct ImageTable {
    images: Vec<Image>,
}

impl View for ImageTable {
    type V = Seq<ImageSpec>;

    closed spec fn view(&self) -> Seq<ImageSpec> {
        records(self.images@)
    }
}

impl ImageTable {
    /// No two records are of the same image.
    pub open spec fn wf(&self) -> bool {
        distinct_names(self@)
    }

    /// A ledger without records.
    pub fn new() -> (table: ImageTable)
        ensures
            table.wf(),
            table@ == Seq::<ImageSpec>::empty(),
    {
        let table = ImageTable { images: Vec::new() };
        assert(table@ =~= Seq::<ImageSpec>::empty());
        table
    }

    fn locate(&self, name: &str) -> (at: usize)
        ensures
            at == position(self@, name@),
            at <= self.images.len(),
            self@.len() == self.images.len(),
    {
        let mut i: usize = 0;
        while i < self.images.len()
            invariant
                i <= self.images.len(),
                forall|j: int| 0 <= j < i ==> (#[trigger] self@[j]).name != name@,
            decreases self.images.len() - i,
        {
            if same_text(self.images[i].name.as_str(), name) {
                proof {
                    lemma_position_is(self@, name@, i as int);
                }
                return i;
            }
            i += 1;
        }
        proof {
            lemma_position_is(self@, name@, i as int);
        }
        i
    }

    /// Adds a record unless the image has one already. Returns whether the
    /// record was added.
    pub fn create_image(&mut self, image: Image) -> (added: bool)
        requires
            old(self).wf(),
        ensures
            final(self).wf(),
            added == !has_image(old(self)@, image.name@),
            final(self)@ == if added {
                old(self)@.push(image@)
            } else {
                old(self)@
            },
    {
        let at = self.locate(image.name.as_str());
        if at < self.images.len() {
            return false;
        }
        proof {
            lemma_position(self@, image.name@);
        }
        self.images.push(image);
        assert(self@ =~= old(self)@.push(image@));
        true
    }

    /// Sets the count on record for the image `name`, if it has a record.
    pub fn update_image_reference_count(&mut self, name: &str, count: u64)
        requires
            old(self).wf(),
        ensures
            final(self).wf(),
            final(self)@ == if has_image(old(self)@, name@) {
                old(self)@.update(
                    position(old(self)@, name@),
                    ImageSpec { name: name@, reference_count: count as nat },
                )
            } else {
                old(self)@
            },
    {
        let at = self.locate(name);
        if at < self.images.len() {
            proof {
                lemma_position(self@, name@);
            }
            let image = Image { name: self.images[at].name.clone(), reference_count: count };
            self.images.set(at, image);
            assert(self@ =~= old(self)@.update(
                at as int,
                ImageSpec { name: name@, reference_count: count as nat },
            ));
        }
    }

    /// Counts one sighting of the image `image_name`: its count goes up by
    /// one, or it gets a record with count one.
    pub fn update_image_reference(&mut self, image_name: &str)
        requires
            old(self).wf(),
        ensures
            final(self).wf(),
            final(self)@ == sighted(old(self)@, image_name@),
    {
        let at = self.locate(image_name);
        proof {
            lemma_position(self@, image_name@);
        }
        if at < self.images.len() {
            let count = self.images[at].reference_count;
            let count = if count < u64::MAX {
                count + 1
            } else {
                count
            };
            self.update_image_reference_count(image_name, count);
        } else {
            let added = self.create_image(Image::new(image_name.to_owned(), 1));
        }
    }

    /// Sets every count to zero.
    pub fn reset_image_reference_counts(&mut self)
        requires
            old(self).wf(),
        ensures
            final(self).wf(),
            final(self)@ == zeroed(old(self)@),
    {
        let mut i: usize = 0;
        while i < self.images.len()
            invariant
                i <= self.images.len(),
                self@.len() == old(self)@.len(),
                self.images.len() == self@.len(),
                forall|j: int| 0 <= j < self@.len() ==> (#[trigger] self@[j]).name == old(self)@[j].name,
                forall|j: int| 0 <= j < i ==> (#[trigger] self@[j]).reference_count == 0,
            decreases self.images.len() - i,
        {
            let ghost before = self@;
            let image = Image { name: self.images[i].name.clone(), reference_count: 0 };
            self.images.set(i, image);
            assert(self@ =~= before.update(
                i as int,
                ImageSpec { name: before[i as int].name, reference_count: 0 },
            ));
            i += 1;
        }
        assert(self@ =~= zeroed(old(self)@));
    }

    /// Drops every record whose count is zero.
    pub fn delete_images_with_zero_count(&mut self)
        requires
            old(self).wf(),
        ensures
            final(self).wf(),
            final(self)@ == referenced(old(self)@),
    {
        let mut kept: Vec<Image> = Vec::new();
        let mut i: usize = 0;
        assert(self@.take(0) =~= Seq::<ImageSpec>::empty());
        while i < self.images.len()
            invariant
                i <= self.images.len(),
                self.images.len() == self@.len(),
                self == old(self),
                records(kept@) == referenced(self@.take(i as int)),
            decreases self.images.len() - i,
        {
            assert(self@.take(i + 1).drop_last() =~= self@.take(i as int));
            assert(self@.take(i + 1).last() == self@[i as int]);
            if self.images[i].reference_count > 0 {
                let image = Image {
                    name: self.images[i].name.clone(),
                    reference_count: self.images[i].reference_count,
                };
                kept.push(image);
                assert(records(kept@) =~= referenced(self@.take(i as int)).push(self@[i as int]));
            }
            i += 1;
        }
        assert(self@.take(i as int) =~= self@);
        proof {
            lemma_referenced(old(self)@);
        }
        self.images = kept;
    }

    /// A copy of every record, listed by name in ascending order.
    pub fn get_all_images(&self) -> (images: Vec<Image>)
        ensures
            records(images@) == by_name(self@),
    {
        let mut images: Vec<Image> = Vec::new();
        let mut i: usize = 0;
        assert(self@.take(0) =~= Seq::<ImageSpec>::empty());
        assert(records(images@) =~= by_name(self@.take(0)));
        while i < self.images.len()
            invariant
                i <= self.images.len(),
                self.images.len() == self@.len(),
                images@.len() == i,
                records(images@) == by_name(self@.take(i as int)),
            decreases self.images.len() - i,
        {
            let image = Image {
                name: self.images[i].name.clone(),
                reference_count: self.images[i].reference_count,
            };
            let ghost listed = records(images@);
            let mut at: usize = 0;
            assert(listed.skip(0) =~= listed);
            while at < images.len() && comes_before(images[at].name.as_str(), image.name.as_str())
                invariant
                    at <= images.len(),
                    listed == records(images@),
                    rank(listed, image.name@) == at + rank(listed.skip(at as int), image.name@),
                decreases images.len() - at,
            {
                assert(listed.skip(at as int)[0] == listed[at as int]);
                assert(listed.skip(at as int).skip(1) =~= listed.skip(at + 1));
                at += 1;
            }
            if at < images.len() {
                assert(listed.skip(at as int)[0] == listed[at as int]);
            }
            assert(at == rank(listed, image.name@));
            assert(self@.take(i + 1).drop_last() =~= self@.take(i as int));
            assert(self@.take(i + 1).last() == self@[i as int]);
            images.insert(at, image);
            assert(records(images@) =~= listed.insert(at as int, self@[i as int]));
            i += 1;
        }
        assert(self@.take(i as int) =~= self@);
        images
    }

    /// Counts every image reference of a parsed compose document, and returns
    /// the references that it found.
    pub fn record_images(&mut self, document: &Node) -> (found: Vec<String>)
        requires
            old(self).wf(),
        ensures
            final(self).wf(),
            texts(found@) == images_in(document@),
            final(self)@ == tallied(old(self)@, images_in(document@)),
    {
        let mut found: Vec<String> = Vec::new();
        extract_images_from_yaml(document, &mut found);
        assert(texts(found@) =~= images_in(document@));
        let mut i: usize = 0;
        while i < found.len()
            invariant
                i <= found.len(),
                self.wf(),
                self@ == tallied(old(self)@, texts(found@).take(i as int)),
            decreases found.len() - i,
        {
            assert(texts(found@).take(i + 1).drop_last() =~= texts(found@).take(i as int));
            assert(texts(found@).take(i + 1).last() == found@[i as int]@);
            self.update_image_reference(found[i].as_str());
            i += 1;
        }
        assert(texts(found@).take(i as int) =~= texts(found@));
        found
    }

    /// Counts every image reference of a compose document, given as text, and
    /// returns the references that it found. A text that is not one YAML
    /// document counts for nothing: the ledger stays as it is, and the error
    /// says why the text was passed over.
    pub fn process_yaml_file(&mut self, content: &str) -> (outcome: Result<Vec<String>, YamlError>)
        requires
            old(self).wf(),
        ensures
            final(self).wf(),
            match outcome {
                Ok(found) => {
                    &&& parsed_yaml(content@) matches Some(document)
                    &&& texts(found@) == images_in(document)
                    &&& final(self)@ == tallied(old(self)@, images_in(document))
                },
                Err(error) => {
                    &&& parsed_yaml(content@) is None
                    &&& error is Parse
                    &&& final(self)@ == old(self)@
                },
            },
    {
        match parse_document(content) {
            Ok(document) => Ok(self.record_images(&document)),
            Err(error) => Err(error),
        }
    }

    /// The sweep at the end of a pass. Returns what is to be done about each
    /// image on record, the images taken by name in ascending order, and drops
    /// the records of the images to evict.
    pub fn process_images(&mut self) -> (sweep: Vec<(String, SweepStep)>)
        requires
            old(self).wf(),
        ensures
            final(self).wf(),
            steps(sweep@) == sweep_of(by_name(old(self)@)),
            final(self)@ == referenced(old(self)@),
    {
        let listed = self.get_all_images();
        let mut sweep: Vec<(String, SweepStep)> = Vec::new();
        let mut i: usize = 0;
        while i < listed.len()
            invariant
                i <= listed.len(),
                steps(sweep@) == sweep_of(records(listed@)).take(i as int),
            decreases listed.len() - i,
        {
            let step = if listed[i].reference_count == 0 {
                SweepStep::Evict
            } else {
                SweepStep::Check
            };
            sweep.push((listed[i].name.clone(), step));
            assert(steps(sweep@) =~= sweep_of(records(listed@)).take(i as int).push(
                sweep_of(records(listed@))[i as int],
            ));
            assert(sweep_of(records(listed@)).take(i + 1) =~= sweep_of(records(listed@)).take(
                i as int,
            ).push(sweep_of(records(listed@))[i as int]));
            i += 1;
        }
        assert(sweep_of(records(listed@)).take(i as int) =~= sweep_of(records(listed@)));
        self.delete_images_with_zero_count();
        sweep
    }

    /// The record of the image `name`, if it has one.
    pub fn get_image_by_name(&self, name: &str) -> (found: Option<&Image>)
        ensures
            match found {
                Some(image) => has_image(self@, name@) && image@ == self@[position(self@, name@)],
                None => !has_image(self@, name@),
            },
    {
        let at = self.locate(name);
        if at < self.images.len() {
            Some(&self.images[at])
        } else {
            None
        }
    }
}

} // verus!
