//! What the controller needs of a resource it manages, and the errors of reading one.
use vstd::prelude::*;

verus! {

/// Why a Kubernetes resource could not be read into a target.
pub enum ResourceParse {
    /// A field that every such resource must have is missing.
    MissingValue { id: String, value: String },
    /// A field or annotation is present but cannot be read.
    ParseFailed { id: String, value: String, error: String },
    /// The resource is asleep but a stored-state annotation is missing.
    MissingAnnotationInSleepState { id: String, annotation: String },
}

/// A resource that the controller puts to sleep and wakes up.
///
/// `sleep` and `wake` change the resource in memory; when they return `true` the change
/// must be sent to the cluster, when they return `false` the resource was already in the
/// requested state and nothing changed.
pub trait TargetResource: Sized {
    spec fn wf(&self) -> bool;

    spec fn asleep(&self) -> bool;

    /// `after` is what `sleep` makes of `self`.
    spec fn slept(&self, after: &Self) -> bool;

    /// `after` is what `wake` makes of `self`.
    spec fn woken(&self, after: &Self) -> bool;

    spec fn id_view(&self) -> Seq<char>;

    fn id(&self) -> (r: String)
        ensures
            r@ == self.id_view(),
    ;

    fn is_asleep(&self) -> (r: bool)
        requires
            self.wf(),
        ensures
            r == self.asleep(),
    ;

    fn sleep(&mut self) -> (changed: bool)
        requires
            old(self).wf(),
        ensures
            final(self).wf(),
            final(self).asleep(),
            changed == !old(self).asleep(),
            !changed ==> *final(self) == *old(self),
            old(self).slept(final(self)),
    ;

    fn wake(&mut self) -> (changed: bool)
        requires
            old(self).wf(),
        ensures
            final(self).wf(),
            changed == old(self).asleep(),
            !changed ==> *final(self) == *old(self),
            old(self).woken(final(self)),
    ;
}

/// The position of the target whose id is `id`, if any.
pub fn find_target<T: TargetResource>(targets: &Vec<T>, id: &String) -> (r: Option<usize>)
    ensures
        match r {
            Some(i) => i < targets@.len() && targets@[i as int].id_view() == id@ && forall|j: int|
                0 <= j < i ==> #[trigger] targets@[j].id_view() != id@,
            None => forall|j: int| 0 <= j < targets@.len() ==> #[trigger] targets@[j].id_view() != id@,
        },
{
    let mut i: usize = 0;
    while i < targets.len()
        invariant
            i <= targets@.len(),
            forall|j: int| 0 <= j < i ==> #[trigger] targets@[j].id_view() != id@,
        decreases targets@.len() - i,
    {
        let t = targets[i].id();
        if t == *id {
            return Some(i);
        }
        i = i + 1;
    }
    None
}

} // verus!
