use std::sync::Arc;
use std::sync::Weak;
use vstd::prelude::*;

verus! {

/// The std weak pointer itself, hidden from proofs: std's `Weak` carries an
/// allocator parameter that cannot be declared here.
#[verifier::external_body]
#[verifier::reject_recursive_types(T)]
pub struct WeakCell<T: ?Sized> {
    inner: Weak<T>,
}

/// Relies on std's `Arc::downgrade`: a weak pointer to the allocation that
/// `strong` owns, leaving the value's lifetime as it was.
#[verifier::external_body]
fn weak_of<T: ?Sized>(strong: &Arc<T>) -> (r: WeakCell<T>) {
    WeakCell { inner: Arc::downgrade(strong) }
}

/// A non-owning reference to a shared value: it does not keep the value alive,
/// and resolving it fails once every strong owner has let go.
#[verifier::reject_recursive_types(T)]
pub struct WeakRef<T: ?Sized> {
    cell: WeakCell<T>,
    source: Ghost<Arc<T>>,
}

impl<T: ?Sized> WeakRef<T> {
    /// The strong handle this reference was taken from.
    pub closed spec fn source(&self) -> Arc<T> {
        self.source@
    }

    /// A weak reference to the value that `strong` owns.
    pub fn downgrade(strong: &Arc<T>) -> (r: WeakRef<T>)
        ensures
            r.source() == *strong,
    {
        WeakRef { cell: weak_of(strong), source: Ghost(*strong) }
    }

    /// Relies on std's `Weak::upgrade`: while some strong owner is left, a new
    /// strong handle to the allocation the reference was taken from; `None` once
    /// the value was dropped. Which of the two comes back depends on the
    /// reference counts at the time of the call.
    #[verifier::external_body]
    pub fn upgrade(&self) -> (r: Option<Arc<T>>)
        ensures
            r is Some ==> r->0 == self.source(),
    {
        self.cell.inner.upgrade()
    }
}

} // verus!
