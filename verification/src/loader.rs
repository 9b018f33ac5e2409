//! Opening libraries by their paths.

use crate::driver;
use crate::driver::{DriverCall, Returned};
use vstd::prelude::*;

verus! {

/// A path that was opened, and what came of it.
pub struct Tried<D> {
    pub path: Seq<char>,
    pub outcome: Result<D, String>,
}

/// Whether `open`, given `path`, may come to `outcome`.
pub open spec fn may_open<D, O: for<'a> Fn(&'a str) -> Result<D, String>>(
    open: O,
    path: Seq<char>,
    outcome: Result<D, String>,
) -> bool {
    exists|p: &str| #[trigger] call_ensures(open, (p,), outcome) && p@ == path
}

/// What is required of the function behind an opener: it can be given any path,
/// and what it opens is a driver.
pub open spec fn is_opener<
    D: for<'a> Fn(DriverCall<'a>) -> Option<Returned>,
    O: for<'a> Fn(&'a str) -> Result<D, String>,
>(open: O) -> bool {
    &&& forall|path: &str| #[trigger] call_requires(open, (path,))
    &&& forall|path: &str, d: D| #[trigger]
        call_ensures(open, (path,), Ok(d)) ==> driver::is_driver(d)
}

/// The libraries that `open` opens, with, for the contracts only, the log of
/// every path that was tried.
#[verifier::reject_recursive_types(D)]
pub struct Opener<
    D: for<'a> Fn(DriverCall<'a>) -> Option<Returned>,
    O: for<'a> Fn(&'a str) -> Result<D, String>,
> {
    open: O,
    log: Ghost<Seq<Tried<D>>>,
}

impl<
    D: for<'a> Fn(DriverCall<'a>) -> Option<Returned>,
    O: for<'a> Fn(&'a str) -> Result<D, String>,
> Opener<D, O> {
    #[verifier::type_invariant]
    spec fn can_open(&self) -> bool {
        is_opener::<D, O>(self.open)
    }

    /// The function that opens.
    pub closed spec fn function(&self) -> O {
        self.open
    }

    /// Every path that was tried so far, with what came of it.
    pub closed spec fn log(&self) -> Seq<Tried<D>> {
        self.log@
    }

    /// An opener that has tried nothing yet.
    pub fn new(open: O) -> (o: Self)
        requires
            is_opener::<D, O>(open),
        ensures
            o.function() == open,
            o.log() == Seq::<Tried<D>>::empty(),
    {
        Opener { open, log: Ghost(Seq::empty()) }
    }

    /// Tries one path.
    pub fn open(&mut self, path: &str) -> (outcome: Result<D, String>)
        ensures
            final(self).function() == old(self).function(),
            final(self).log() == old(self).log().push(Tried { path: path@, outcome }),
            may_open(old(self).function(), path@, outcome),
            outcome matches Ok(d) ==> driver::is_driver(d),
    {
        proof {
            use_type_invariant(&*self);
        }
        let outcome = (self.open)(path);
        self.log = Ghost(self.log@.push(Tried { path: path@, outcome }));
        outcome
    }
}

} // verus!
