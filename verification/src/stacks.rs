//! Stack records: what is known of each deployed stack, keyed by the stack's
//! name and the origin it was declared in.

use crate::text::{
    comes_before, lemma_precedes_total, lemma_precedes_transitive, precedes, same_text,
};
use vstd::prelude::*;

verus! {

/// Where a stack stands.
#[derive(Clone, Copy, Debug, PartialEq, Eq, Structural)]
pub enum StackStatus {
    /// On record, its deployment not yet confirmed.
    Pending,
    Deployed,
    Stopped,
}

impl StackStatus {
    /// The word that stands for a status.
    pub open spec fn spec_label(self) -> Seq<char> {
        match self {
            StackStatus::Pending => "pending"@,
            StackStatus::Deployed => "deployed"@,
            StackStatus::Stopped => "stopped"@,
        }
    }

    /// The word that stands for this status.
    pub fn label(self) -> (word: &'static str)
        ensures
            word@ == self.spec_label(),
    {
        match self {
            StackStatus::Pending => "pending",
            StackStatus::Deployed => "deployed",
            StackStatus::Stopped => "stopped",
        }
    }

    /// The status that a word stands for, if it stands for any.
    pub fn from_label(word: &str) -> (status: Option<StackStatus>)
        ensures
            match status {
                Some(s) => s.spec_label() == word@,
                None => forall|s: StackStatus| s.spec_label() != word@,
            },
    {
        if same_text(word, "pending") {
            Some(StackStatus::Pending)
        } else if same_text(word, "deployed") {
            Some(StackStatus::Deployed)
        } else if same_text(word, "stopped") {
            Some(StackStatus::Stopped)
        } else {
            None
        }
    }
}

/// The record of one stack.
#[derive(Clone, Debug, PartialEq, Eq)]
pub struct Stack {
    pub name: String,
    /// The origin: where the stack's declaration comes from.
    pub repository_url: String,
    /// Path of the compose document, relative to the root of the source tree.
    pub compose_path: String,
    /// Fingerprint of the compose document as it was last deployed.
    pub hash: String,
    pub status: StackStatus,
}

/// The mathematical value of a stack record.
pub ghost struct StackSpec {
    pub name: Seq<char>,
    pub repository_url: Seq<char>,
    pub compose_path: Seq<char>,
    pub hash: Seq<char>,
    pub status: StackStatus,
}

impl View for Stack {
    type V = StackSpec;

    open spec fn view(&self) -> StackSpec {
        StackSpec {
            name: self.name@,
            repository_url: self.repository_url@,
            compose_path: self.compose_path@,
            hash: self.hash@,
            status: self.status,
        }
    }
}

impl Stack {
    /// The record of a stack that was just sighted: its status is pending.
    pub fn new(name: String, repository_url: String, compose_path: String, hash: String) -> (stack:
        Stack)
        ensures
            stack@ == (StackSpec {
                name: name@,
                repository_url: repository_url@,
                compose_path: compose_path@,
                hash: hash@,
                status: StackStatus::Pending,
            }),
    {
        Stack { name, repository_url, compose_path, hash, status: StackStatus::Pending }
    }

    fn copy(&self) -> (stack: Stack)
        ensures
            stack@ == self@,
    {
        Stack {
            name: self.name.clone(),
            repository_url: self.repository_url.clone(),
            compose_path: self.compose_path.clone(),
            hash: self.hash.clone(),
            status: self.status,
        }
    }
}

/// The values of a run of stack records.
pub open spec fn stack_records(stacks: Seq<Stack>) -> Seq<StackSpec> {
    Seq::new(stacks.len(), |i: int| stacks[i]@)
}

/// Whether a record is the one of stack `name` from `origin`.
pub open spec fn is_stack(record: StackSpec, name: Seq<char>, origin: Seq<char>) -> bool {
    record.name == name && record.repository_url == origin
}

/// Position of the first record of stack `name` from `origin`, or the number
/// of records if there is none.
pub open spec fn stack_position(records: Seq<StackSpec>, name: Seq<char>, origin: Seq<char>) -> int
    decreases records.len(),
{
    if records.len() == 0 || is_stack(records[0], name, origin) {
        0
    } else {
        1 + stack_position(records.skip(1), name, origin)
    }
}

/// The record of stack `name` from `origin`, if it has one.
pub open spec fn stack_of(records: Seq<StackSpec>, name: Seq<char>, origin: Seq<char>) -> Option<
    StackSpec,
> {
    let at = stack_position(records, name, origin);
    if at < records.len() {
        Some(records[at])
    } else {
        None
    }
}

/// No two records are of the same stack from the same origin.
pub open spec fn distinct_stacks(records: Seq<StackSpec>) -> bool {
    forall|i: int, j: int|
        0 <= i < j < records.len() ==> !is_stack(
            #[trigger] records[i],
            (#[trigger] records[j]).name,
            records[j].repository_url,
        )
}

/// The records with `stack` put on record: in the place of the record of the
/// same name and origin, or at the end if there is none.
pub open spec fn with_stack(records: Seq<StackSpec>, stack: StackSpec) -> Seq<StackSpec> {
    let at = stack_position(records, stack.name, stack.repository_url);
    if at < records.len() {
        records.update(at, stack)
    } else {
        records.push(stack)
    }
}

/// The records with the fingerprint of stack `name` from `origin` set to
/// `hash`, if it has a record.
pub open spec fn with_hash(
    records: Seq<StackSpec>,
    name: Seq<char>,
    origin: Seq<char>,
    hash: Seq<char>,
) -> Seq<StackSpec> {
    let at = stack_position(records, name, origin);
    if at < records.len() {
        records.update(at, StackSpec { hash, ..records[at] })
    } else {
        records
    }
}

/// The records with the status of stack `name` from `origin` set to
/// `status`, if it has a record.
pub open spec fn with_status(
    records: Seq<StackSpec>,
    name: Seq<char>,
    origin: Seq<char>,
    status: StackStatus,
) -> Seq<StackSpec> {
    let at = stack_position(records, name, origin);
    if at < records.len() {
        records.update(at, StackSpec { status, ..records[at] })
    } else {
        records
    }
}

/// `stack_position` is in range, points at a record of the stack if at any,
/// and no record before it is of the stack.
pub proof fn lemma_stack_position(records: Seq<StackSpec>, name: Seq<char>, origin: Seq<char>)
    ensures
        0 <= stack_position(records, name, origin) <= records.len(),
        stack_position(records, name, origin) < records.len() ==> is_stack(
            records[stack_position(records, name, origin)],
            name,
            origin,
        ),
        forall|i: int|
            0 <= i < stack_position(records, name, origin) ==> !is_stack(
                #[trigger] records[i],
                name,
                origin,
            ),
    decreases records.len(),
{
    if records.len() == 0 || is_stack(records[0], name, origin) {
    } else {
        let rest = records.skip(1);
        lemma_stack_position(rest, name, origin);
        assert forall|i: int| 0 <= i < stack_position(records, name, origin) implies !is_stack(
            #[trigger] records[i],
            name,
            origin,
        ) by {
            if i > 0 {
                assert(rest[i - 1] == records[i]);
            }
        }
        if stack_position(records, name, origin) < records.len() {
            assert(rest[stack_position(rest, name, origin)] == records[stack_position(
                records,
                name,
                origin,
            )]);
        }
    }
}

/// The position of a stack is `at` if its record stands at `at` and none
/// before, or if `at` is the number of records and none is of the stack.
pub proof fn lemma_stack_position_is(
    records: Seq<StackSpec>,
    name: Seq<char>,
    origin: Seq<char>,
    at: int,
)
    requires
        0 <= at <= records.len(),
        forall|i: int| 0 <= i < at ==> !is_stack(#[trigger] records[i], name, origin),
        at < records.len() ==> is_stack(records[at], name, origin),
    ensures
        stack_position(records, name, origin) == at,
{
    lemma_stack_position(records, name, origin);
    let p = stack_position(records, name, origin);
    if p < at {
        assert(!is_stack(records[p], name, origin));
    } else if p > at {
        assert(!is_stack(records[at], name, origin));
    }
}

/// Whether two records are of the same stack from the same origin.
pub open spec fn same_stack(a: StackSpec, b: StackSpec) -> bool {
    a.name == b.name && a.repository_url == b.repository_url
}

/// Putting a record in the place of one of the same stack moves no stack:
/// every stack is found where it was.
pub proof fn lemma_update_keeps_positions(
    records: Seq<StackSpec>,
    at: int,
    record: StackSpec,
    name: Seq<char>,
    origin: Seq<char>,
)
    requires
        0 <= at < records.len(),
        same_stack(record, records[at]),
    ensures
        stack_position(records.update(at, record), name, origin) == stack_position(
            records,
            name,
            origin,
        ),
        !is_stack(record, name, origin) ==> stack_of(records.update(at, record), name, origin)
            == stack_of(records, name, origin),
        distinct_stacks(records) ==> distinct_stacks(records.update(at, record)),
{
    let after = records.update(at, record);
    let was = stack_position(records, name, origin);
    lemma_stack_position(records, name, origin);
    assert forall|i: int| 0 <= i < was implies !is_stack(#[trigger] after[i], name, origin) by {
        assert(same_stack(after[i], records[i]));
    }
    if was < records.len() {
        assert(same_stack(after[was], records[was]));
    }
    lemma_stack_position_is(after, name, origin, was);
    if distinct_stacks(records) {
        assert forall|i: int, j: int| 0 <= i < j < after.len() implies !is_stack(
            #[trigger] after[i],
            (#[trigger] after[j]).name,
            after[j].repository_url,
        ) by {
            assert(same_stack(after[i], records[i]));
            assert(same_stack(after[j], records[j]));
        }
    }
}

/// A record added at the end is found there if its stack had none, and
/// moves no other stack.
pub proof fn lemma_push_keeps_positions(
    records: Seq<StackSpec>,
    record: StackSpec,
    name: Seq<char>,
    origin: Seq<char>,
)
    ensures
        !is_stack(record, name, origin) ==> stack_of(records.push(record), name, origin)
            == stack_of(records, name, origin),
        is_stack(record, name, origin) && stack_of(records, name, origin) is None ==> stack_of(
            records.push(record),
            name,
            origin,
        ) == Some(record),
        distinct_stacks(records) && stack_of(records, record.name, record.repository_url)
            is None ==> distinct_stacks(records.push(record)),
{
    let after = records.push(record);
    let was = stack_position(records, name, origin);
    lemma_stack_position(records, name, origin);
    assert forall|i: int| 0 <= i < was implies !is_stack(#[trigger] after[i], name, origin) by {
        assert(after[i] == records[i]);
    }
    if was < records.len() {
        assert(after[was] == records[was]);
        lemma_stack_position_is(after, name, origin, was);
    } else if is_stack(record, name, origin) {
        lemma_stack_position_is(after, name, origin, was);
    } else {
        assert(!is_stack(after[was], name, origin));
        lemma_stack_position_is(after, name, origin, was + 1);
    }
    if distinct_stacks(records) && stack_of(records, record.name, record.repository_url) is None {
        lemma_stack_position(records, record.name, record.repository_url);
        assert forall|i: int, j: int| 0 <= i < j < after.len() implies !is_stack(
            #[trigger] after[i],
            (#[trigger] after[j]).name,
            after[j].repository_url,
        ) by {
            if j < records.len() {
                assert(after[i] == records[i] && after[j] == records[j]);
            } else {
                assert(after[i] == records[i]);
            }
        }
    }
}

/// Number of records at the head of `ordered` whose names come before
/// `name` or are `name`: the place of a record of `name` after them.
pub open spec fn stack_rank(ordered: Seq<StackSpec>, name: Seq<char>) -> int
    decreases ordered.len(),
{
    if ordered.len() == 0 || !precedes(ordered[0].name, name) {
        0
    } else {
        1 + stack_rank(ordered.skip(1), name)
    }
}

/// The records listed by name, in ascending order; records of one name stay
/// in the order they have.
pub open spec fn stacks_by_name(records: Seq<StackSpec>) -> Seq<StackSpec>
    decreases records.len(),
{
    if records.len() == 0 {
        records
    } else {
        let listed = stacks_by_name(records.drop_last());
        listed.insert(stack_rank(listed, records.last().name), records.last())
    }
}

/// Every record's name comes before, or is, the name of each record after
/// it.
pub open spec fn stacks_ascending(records: Seq<StackSpec>) -> bool {
    forall|i: int, j: int|
        0 <= i < j < records.len() ==> precedes(
            (#[trigger] records[i]).name,
            (#[trigger] records[j]).name,
        )
}

/// In an ascending run, the rank of a name parts the records that come
/// before it from those that come after.
pub proof fn lemma_stack_rank(ordered: Seq<StackSpec>, name: Seq<char>)
    requires
        stacks_ascending(ordered),
    ensures
        0 <= stack_rank(ordered, name) <= ordered.len(),
        forall|i: int|
            0 <= i < stack_rank(ordered, name) ==> precedes((#[trigger] ordered[i]).name, name),
        forall|i: int|
            stack_rank(ordered, name) <= i < ordered.len() ==> precedes(
                name,
                (#[trigger] ordered[i]).name,
            ),
    decreases ordered.len(),
{
    if ordered.len() == 0 {
    } else if !precedes(ordered[0].name, name) {
        lemma_precedes_total(ordered[0].name, name);
        assert forall|i: int| 0 <= i < ordered.len() implies precedes(
            name,
            (#[trigger] ordered[i]).name,
        ) by {
            if i > 0 {
                lemma_precedes_transitive(name, ordered[0].name, ordered[i].name);
            }
        }
    } else {
        let rest = ordered.skip(1);
        assert forall|i: int, j: int| 0 <= i < j < rest.len() implies precedes(
            (#[trigger] rest[i]).name,
            (#[trigger] rest[j]).name,
        ) by {
            assert(rest[i] == ordered[i + 1] && rest[j] == ordered[j + 1]);
        }
        lemma_stack_rank(rest, name);
        assert forall|i: int| 0 <= i < stack_rank(ordered, name) implies precedes(
            (#[trigger] ordered[i]).name,
            name,
        ) by {
            if i > 0 {
                assert(rest[i - 1] == ordered[i]);
            }
        }
        assert forall|i: int| stack_rank(ordered, name) <= i < ordered.len() implies precedes(
            name,
            (#[trigger] ordered[i]).name,
        ) by {
            assert(rest[i - 1] == ordered[i]);
        }
    }
}

/// The listing by name holds every record once, none besides, and is in
/// ascending order of the names.
pub proof fn lemma_stacks_by_name(records: Seq<StackSpec>)
    ensures
        stacks_by_name(records).len() == records.len(),
        stacks_by_name(records).to_multiset() == records.to_multiset(),
        stacks_ascending(stacks_by_name(records)),
    decreases records.len(),
{
    if records.len() == 0 {
    } else {
        let front = records.drop_last();
        let last = records.last();
        let listed = stacks_by_name(front);
        lemma_stacks_by_name(front);
        lemma_stack_rank(listed, last.name);
        let at = stack_rank(listed, last.name);
        let all = listed.insert(at, last);
        listed.insert_ensures(at, last);
        vstd::seq_lib::to_multiset_insert(listed, at, last);
        vstd::seq_lib::to_multiset_build(front, last);
        assert(front.push(last) =~= records);
        assert forall|i: int, j: int| 0 <= i < j < all.len() implies precedes(
            (#[trigger] all[i]).name,
            (#[trigger] all[j]).name,
        ) by {
            if j < at {
                assert(all[i] == listed[i] && all[j] == listed[j]);
            } else if j == at {
                assert(all[i] == listed[i] && all[j] == last);
            } else if i < at {
                assert(all[i] == listed[i] && all[j] == listed[j - 1]);
            } else if i == at {
                assert(all[i] == last && all[j] == listed[j - 1]);
            } else {
                assert(all[i] == listed[i - 1] && all[j] == listed[j - 1]);
            }
        }
    }
}

/// The stack records of one origin or of several.
pub struct StackTable {
    stacks: Vec<Stack>,
}

impl View for StackTable {
    type V = Seq<StackSpec>;

    closed spec fn view(&self) -> Seq<StackSpec> {
        stack_records(self.stacks@)
    }
}

impl StackTable {
    /// No two records are of the same stack from the same origin.
    pub open spec fn wf(&self) -> bool {
        distinct_stacks(self@)
    }

    /// A table without records.
    pub fn new() -> (table: StackTable)
        ensures
            table.wf(),
            table@ == Seq::<StackSpec>::empty(),
    {
        let table = StackTable { stacks: Vec::new() };
        assert(table@ =~= Seq::<StackSpec>::empty());
        table
    }

    fn locate(&self, name: &str, repository_url: &str) -> (at: usize)
        ensures
            at == stack_position(self@, name@, repository_url@),
            at <= self.stacks.len(),
            self@.len() == self.stacks.len(),
    {
        let mut i: usize = 0;
        while i < self.stacks.len()
            invariant
                i <= self.stacks.len(),
                forall|j: int| 0 <= j < i ==> !is_stack(#[trigger] self@[j], name@, repository_url@),
            decreases self.stacks.len() - i,
        {
            if same_text(self.stacks[i].name.as_str(), name) && same_text(
                self.stacks[i].repository_url.as_str(),
                repository_url,
            ) {
                proof {
                    lemma_stack_position_is(self@, name@, repository_url@, i as int);
                }
                return i;
            }
            i += 1;
        }
        proof {
            lemma_stack_position_is(self@, name@, repository_url@, i as int);
        }
        i
    }

    /// Puts a stack on record, in the place of the record of the same name
    /// and origin if there is one.
    pub fn create_stack(&mut self, stack: Stack)
        requires
            old(self).wf(),
        ensures
            final(self).wf(),
            final(self)@ == with_stack(old(self)@, stack@),
    {
        let at = self.locate(stack.name.as_str(), stack.repository_url.as_str());
        proof {
            lemma_stack_position(self@, stack.name@, stack.repository_url@);
        }
        if at < self.stacks.len() {
            self.stacks.set(at, stack);
            assert(self@ =~= old(self)@.update(at as int, stack@));
        } else {
            self.stacks.push(stack);
            assert(self@ =~= old(self)@.push(stack@));
        }
    }

    /// The record of stack `name` from `repository_url`, if it has one.
    pub fn get_stack_by_name(&self, name: &str, repository_url: &str) -> (found: Option<&Stack>)
        ensures
            match found {
                Some(stack) => stack_of(self@, name@, repository_url@) == Some(stack@),
                None => stack_of(self@, name@, repository_url@) is None,
            },
    {
        let at = self.locate(name, repository_url);
        if at < self.stacks.len() {
            Some(&self.stacks[at])
        } else {
            None
        }
    }

    /// A copy of every record, listed by name in ascending order.
    pub fn get_all_stacks(&self) -> (stacks: Vec<Stack>)
        ensures
            stack_records(stacks@) == stacks_by_name(self@),
    {
        let mut stacks: Vec<Stack> = Vec::new();
        let mut i: usize = 0;
        assert(self@.take(0) =~= Seq::<StackSpec>::empty());
        assert(stack_records(stacks@) =~= stacks_by_name(self@.take(0)));
        while i < self.stacks.len()
            invariant
                i <= self.stacks.len(),
                self.stacks.len() == self@.len(),
                stacks@.len() == i,
                stack_records(stacks@) == stacks_by_name(self@.take(i as int)),
            decreases self.stacks.len() - i,
        {
            let stack = self.stacks[i].copy();
            let ghost listed = stack_records(stacks@);
            let mut at: usize = 0;
            assert(listed.skip(0) =~= listed);
            while at < stacks.len() && comes_before(stacks[at].name.as_str(), stack.name.as_str())
                invariant
                    at <= stacks.len(),
                    listed == stack_records(stacks@),
                    stack_rank(listed, stack.name@) == at + stack_rank(
                        listed.skip(at as int),
                        stack.name@,
                    ),
                decreases stacks.len() - at,
            {
                assert(listed.skip(at as int)[0] == listed[at as int]);
                assert(listed.skip(at as int).skip(1) =~= listed.skip(at + 1));
                at += 1;
            }
            if at < stacks.len() {
                assert(listed.skip(at as int)[0] == listed[at as int]);
            }
            assert(at == stack_rank(listed, stack.name@));
            assert(self@.take(i + 1).drop_last() =~= self@.take(i as int));
            assert(self@.take(i + 1).last() == self@[i as int]);
            stacks.insert(at, stack);
            assert(stack_records(stacks@) =~= listed.insert(at as int, self@[i as int]));
            i += 1;
        }
        assert(self@.take(i as int) =~= self@);
        stacks
    }

    /// Sets the status of stack `name` from `repository_url`, if it has a
    /// record.
    pub fn update_stack_status(&mut self, name: &str, repository_url: &str, status: StackStatus)
        requires
            old(self).wf(),
        ensures
            final(self).wf(),
            final(self)@ == with_status(old(self)@, name@, repository_url@, status),
    {
        let at = self.locate(name, repository_url);
        if at < self.stacks.len() {
            proof {
                lemma_stack_position(self@, name@, repository_url@);
            }
            let mut stack = self.stacks[at].copy();
            stack.status = status;
            self.stacks.set(at, stack);
            assert(self@ =~= old(self)@.update(
                at as int,
                StackSpec { status, ..old(self)@[at as int] },
            ));
        }
    }

    /// Sets the fingerprint of stack `name` from `repository_url`, if it has
    /// a record.
    pub fn update_stack_hash(&mut self, name: &str, repository_url: &str, hash: &str)
        requires
            old(self).wf(),
        ensures
            final(self).wf(),
            final(self)@ == with_hash(old(self)@, name@, repository_url@, hash@),
    {
        let at = self.locate(name, repository_url);
        if at < self.stacks.len() {
            proof {
                lemma_stack_position(self@, name@, repository_url@);
            }
            let mut stack = self.stacks[at].copy();
            stack.hash = hash.to_owned();
            self.stacks.set(at, stack);
            assert(self@ =~= old(self)@.update(
                at as int,
                StackSpec { hash: hash@, ..old(self)@[at as int] },
            ));
        }
    }

    /// Drops every record.
    pub fn delete_all_stacks(&mut self)
        ensures
            final(self).wf(),
            final(self)@ == Seq::<StackSpec>::empty(),
    {
        self.stacks = Vec::new();
        assert(self@ =~= Seq::<StackSpec>::empty());
    }
}

} // verus!
