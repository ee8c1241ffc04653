//! The full teardown: every stack and every image is removed, and nothing
//! stays on record.

use crate::ledger::{by_name, ImageSpec, ImageTable};
use crate::stacks::{stacks_by_name, StackSpec, StackTable};
use vstd::prelude::*;

verus! {

/// A command for the executor during a teardown.
#[derive(Debug, PartialEq, Eq)]
pub enum TeardownCommand {
    RemoveStack(String),
    RemoveImage(String),
}

/// The mathematical value of a teardown command.
pub ghost enum TeardownSpec {
    RemoveStack(Seq<char>),
    RemoveImage(Seq<char>),
}

impl View for TeardownCommand {
    type V = TeardownSpec;

    open spec fn view(&self) -> TeardownSpec {
        match self {
            TeardownCommand::RemoveStack(name) => TeardownSpec::RemoveStack(name@),
            TeardownCommand::RemoveImage(name) => TeardownSpec::RemoveImage(name@),
        }
    }
}

/// The commands that remove a run of stacks, then a run of images, each in
/// its order.
pub open spec fn teardown_of(stacks: Seq<StackSpec>, images: Seq<ImageSpec>) -> Seq<TeardownSpec> {
    Seq::new(stacks.len(), |i: int| TeardownSpec::RemoveStack(stacks[i].name)) + Seq::new(
        images.len(),
        |i: int| TeardownSpec::RemoveImage(images[i].name),
    )
}

/// The values of a run of teardown commands.
pub open spec fn teardown_commands(commands: Seq<TeardownCommand>) -> Seq<TeardownSpec> {
    Seq::new(commands.len(), |i: int| commands[i]@)
}

/// Tears everything down: returns the commands that remove every stack on
/// record, then every image on record, each taken by name in ascending
/// order, and leaves no record of either.
pub fn stop(stacks: &mut StackTable, images: &mut ImageTable) -> (commands: Vec<TeardownCommand>)
    requires
        old(images).wf(),
    ensures
        teardown_commands(commands@) == teardown_of(
            stacks_by_name(old(stacks)@),
            by_name(old(images)@),
        ),
        final(stacks).wf(),
        final(stacks)@ == Seq::<StackSpec>::empty(),
        final(images).wf(),
        final(images)@ == Seq::<ImageSpec>::empty(),
{
    let mut commands: Vec<TeardownCommand> = Vec::new();
    let all_stacks = stacks.get_all_stacks();
    let mut i: usize = 0;
    while i < all_stacks.len()
        invariant
            i <= all_stacks.len(),
            commands@.len() == i,
            forall|j: int|
                0 <= j < i ==> (#[trigger] commands@[j])@ == TeardownSpec::RemoveStack(
                    all_stacks@[j].name@,
                ),
        decreases all_stacks.len() - i,
    {
        commands.push(TeardownCommand::RemoveStack(all_stacks[i].name.clone()));
        i += 1;
    }
    let all_images = images.get_all_images();
    let mut k: usize = 0;
    while k < all_images.len()
        invariant
            k <= all_images.len(),
            commands@.len() == all_stacks.len() + k,
            forall|j: int|
                0 <= j < all_stacks.len() ==> (#[trigger] commands@[j])@
                    == TeardownSpec::RemoveStack(all_stacks@[j].name@),
            forall|j: int|
                0 <= j < k ==> (#[trigger] commands@[all_stacks.len() + j])@
                    == TeardownSpec::RemoveImage(all_images@[j].name@),
        decreases all_images.len() - k,
    {
        commands.push(TeardownCommand::RemoveImage(all_images[k].name.clone()));
        k += 1;
    }
    proof {
        let listed_stacks = stacks_by_name(old(stacks)@);
        let listed_images = by_name(old(images)@);
        let wanted = teardown_of(listed_stacks, listed_images);
        assert(listed_stacks.len() == all_stacks.len());
        assert(listed_images.len() == all_images.len());
        assert forall|j: int| 0 <= j < wanted.len() implies teardown_commands(commands@)[j]
            == wanted[j] by {
            if j < all_stacks.len() {
                assert(listed_stacks[j] == all_stacks@[j]@);
            } else {
                let m = j - all_stacks.len();
                assert(listed_images[m] == all_images@[m]@);
                assert(commands@[all_stacks.len() + m]@ == TeardownSpec::RemoveImage(
                    all_images@[m].name@,
                ));
            }
        }
        assert(teardown_commands(commands@) =~= wanted);
    }
    stacks.delete_all_stacks();
    images.reset_image_reference_counts();
    images.delete_images_with_zero_count();
    proof {
        crate::ledger::lemma_referenced_of_zeroed(old(images)@);
    }
    commands
}

} // verus!
