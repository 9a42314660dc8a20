use crate::util::NodeError;
use vstd::prelude::*;
use vstd::string::StringExecFns;

verus! {

/// The capability a stored value type must offer: an incremental merge
/// (`patch`: combine the existing value with a delta) and a full replacement
/// (`put`: discard the old value and install a new one). Both are fallible in
/// general, although a value type may never actually fail.
///
/// `duplicate` hands out an owned copy of a value, so that lookups and
/// enumeration can return values without giving up the tree's ownership.
pub trait Document: Sized {
    /// The delta type accepted by `patch`.
    type U;

    /// Whether merging `delta` into this value can succeed.
    spec fn merge_ok(self, delta: Self::U) -> bool;

    /// The relation between a value, a delta, and the result of a successful
    /// merge.
    spec fn merged_with(self, delta: Self::U, post: Self) -> bool;

    /// Whether replacing this value by `new` can succeed.
    spec fn replace_ok(self, new: Self) -> bool;

    /// Merge `delta` into the value in place.
    fn patch(&mut self, delta: Self::U) -> (r: Result<(), NodeError>)
        ensures
            old(self).merge_ok(delta) ==> r is Ok,
            r is Ok ==> old(self).merged_with(delta, *final(self)),
            r is Err ==> *final(self) == *old(self) && !old(self).merge_ok(delta),
    ;

    /// Replace the value by `new` in place.
    fn put(&mut self, new: Self) -> (r: Result<(), NodeError>)
        ensures
            old(self).replace_ok(new) ==> r is Ok,
            r is Ok ==> *final(self) == new,
            r is Err ==> *final(self) == *old(self) && !old(self).replace_ok(new),
    ;

    /// An owned copy of the value.
    fn duplicate(&self) -> (r: Self)
        ensures
            r == *self,
    ;
}

/// Text documents: a merge appends the delta, a replacement substitutes the
/// text outright. Neither can fail.
impl Document for String {
    type U = String;

    open spec fn merge_ok(self, delta: String) -> bool {
        true
    }

    open spec fn merged_with(self, delta: String, post: Self) -> bool {
        post@ == self@ + delta@
    }

    open spec fn replace_ok(self, new: Self) -> bool {
        true
    }

    fn patch(&mut self, delta: String) -> (r: Result<(), NodeError>) {
        self.append(delta.as_str());
        Ok(())
    }

    fn put(&mut self, new: Self) -> (r: Result<(), NodeError>) {
        *self = new;
        Ok(())
    }

    fn duplicate(&self) -> (r: Self) {
        self.clone()
    }
}

} // verus!
