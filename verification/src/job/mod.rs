//! A bounded pool of jobs, each posted with an id of its own.
use vstd::prelude::*;

verus! {

#[verifier::external_type_specification]
#[verifier::external_body]
#[verifier::reject_recursive_types(T)]
pub struct ExHeaplessVec<T, const N: usize>(heapless::Vec<T, N>);

/// A piece of work that is polled until it has a result.
pub trait Job {
    /// What the job produces.
    type Result;

    /// Advances the job; its result once it is done.
    fn poll(&mut self) -> Option<Self::Result>;
}

/// A job together with the id it was posted under.
pub struct WrappedJob<T> {
    pub job: T,
    pub id: usize,
}

/// At most `N` values in a `heapless::Vec`, with its contents tracked as a ghost sequence.
#[verifier::reject_recursive_types(T)]
pub struct JobList<T, const N: usize> {
    inner: heapless::Vec<T, N>,
    items: Ghost<Seq<T>>,
}

impl<T, const N: usize> JobList<T, N> {
    /// The values, in the order they were pushed.
    pub closed spec fn view(&self) -> Seq<T> {
        self.items@
    }

    /// An empty list (`heapless::Vec::new`).
    #[verifier::external_body]
    fn new() -> (r: Self)
        ensures
            r.view() == Seq::<T>::empty(),
    {
        JobList { inner: heapless::Vec::new(), items: Ghost(Seq::empty()) }
    }

    /// Appends `item` (`heapless::Vec::push`): it succeeds when fewer than `N` values are
    /// held, and otherwise hands `item` back unchanged.
    #[verifier::external_body]
    fn push(&mut self, item: T) -> (r: Result<(), T>)
        ensures
            match r {
                Ok(_) => old(self).view().len() < N && final(self).view() == old(self).view().push(item),
                Err(v) => old(self).view().len() >= N && v == item && final(self).view() == old(self).view(),
            },
    {
        self.inner.push(item)
    }
}

/// Holds at most `N` posted jobs and gives each the next id.
#[verifier::reject_recursive_types(T)]
pub struct JobServer<T: Job, const N: usize> {
    jobs: JobList<WrappedJob<T>, N>,
    id_counter: usize,
}

impl<T: Job, const N: usize> JobServer<T, N> {
    /// The posted jobs, oldest first.
    pub closed spec fn jobs(&self) -> Seq<WrappedJob<T>> {
        self.jobs.view()
    }

    /// The id the next posted job takes.
    pub closed spec fn next_id(&self) -> usize {
        self.id_counter
    }

    /// A server with no job, whose first job takes id 0.
    pub fn new() -> (r: Self)
        ensures
            r.jobs() == Seq::<WrappedJob<T>>::empty(),
            r.next_id() == 0,
    {
        JobServer { jobs: JobList::new(), id_counter: 0 }
    }

    /// Posts `job` under the next id. The id is used up either way; when `N` jobs are
    /// already held the job is handed back.
    pub fn try_post(&mut self, job: T) -> (r: Result<(), T>)
        requires
            old(self).next_id() < usize::MAX,
        ensures
            final(self).next_id() == old(self).next_id() + 1,
            old(self).jobs().len() < N ==> r is Ok && final(self).jobs() == old(self).jobs().push(
                (WrappedJob { job, id: old(self).next_id() }),
            ),
            old(self).jobs().len() >= N ==> r == Err::<(), T>(job) && final(self).jobs() == old(self).jobs(),
    {
        let next_id = self.id_counter;
        self.id_counter = self.id_counter + 1;
        match self.jobs.push(WrappedJob { job, id: next_id }) {
            Ok(()) => Ok(()),
            Err(e) => Err(e.job),
        }
    }
}

} // verus!
