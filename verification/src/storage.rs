use vstd::prelude::*;

verus! {

/// The blob/bucket file-storage subsystem the request layer refers to.
/// It is a declared surface with no behaviour yet: creating, reading or
/// dropping a bucket changes nothing observable.
pub struct Storage {
    buckets: Vec<String>,
}

impl Storage {
    /// An empty storage handle.
    pub fn new() -> (s: Storage)
        ensures
            s@ == Seq::<Seq<char>>::empty(),
    {
        let s = Storage { buckets: Vec::new() };
        proof {
            assert(buckets_view(s.buckets@) =~= Seq::<Seq<char>>::empty());
        }
        s
    }

    /// Declared bucket creation: not yet implemented, changes nothing.
    pub fn create_bucket(&mut self, bucket_name: &String)
        ensures
            final(self)@ == old(self)@,
    {
    }

    /// Declared bucket read: not yet implemented, observes nothing.
    pub fn read_bucket(&self, bucket_name: &String) {
    }

    /// Declared bucket removal: not yet implemented, changes nothing.
    pub fn delete_bucket(&mut self, bucket_name: &String)
        ensures
            final(self)@ == old(self)@,
    {
    }
}

/// The views of the held bucket names.
pub open spec fn buckets_view(names: Seq<String>) -> Seq<Seq<char>> {
    Seq::new(names.len(), |i: int| names[i]@)
}

impl View for Storage {
    type V = Seq<Seq<char>>;

    closed spec fn view(&self) -> Seq<Seq<char>> {
        buckets_view(self.buckets@)
    }
}

} // verus!
