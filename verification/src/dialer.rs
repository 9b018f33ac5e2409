//! Finding and opening the way to the host.

use crate::stream;
use crate::stream::{Action, IoError};
use vstd::prelude::*;

verus! {

/// Where the host is to be reached.
pub enum Endpoint {
    Tcp(String),
    Unix(String),
    Vsock { cid: u32, port: u32 },
}

/// What an [`Endpoint`] says.
pub enum Place {
    Tcp(Seq<char>),
    Unix(Seq<char>),
    Vsock { cid: u32, port: u32 },
}

impl View for Endpoint {
    type V = Place;

    open spec fn view(&self) -> Place {
        match self {
            Endpoint::Tcp(address) => Place::Tcp(address@),
            Endpoint::Unix(path) => Place::Unix(path@),
            Endpoint::Vsock { cid, port } => Place::Vsock { cid: *cid, port: *port },
        }
    }
}

/// What was asked of a dialer, and what came of it.
pub enum Dialed<S> {
    /// The text that chooses the endpoint was looked up.
    Chosen(Option<Seq<char>>),
    /// An endpoint was opened, or was not to be opened.
    Opened(Place, Option<S>),
}

/// The text of a choice that may not have been made.
pub open spec fn told(spec: Option<String>) -> Option<Seq<char>> {
    match spec {
        Some(text) => Some(text@),
        None => None,
    }
}

/// What is required of the functions behind a dialer: they can be called, and
/// what is opened is a transport.
pub open spec fn is_dialer<
    S: for<'a> Fn(Action<'a>) -> Result<Vec<u8>, IoError>,
    E: Fn() -> Option<String>,
    O: Fn(Endpoint) -> Option<S>,
>(spec: E, open: O) -> bool {
    &&& call_requires(spec, ())
    &&& forall|e: Endpoint| #[trigger] call_requires(open, (e,))
    &&& forall|e: Endpoint, s: S| #[trigger]
        call_ensures(open, (e,), Some(s)) ==> stream::is_transport(s)
}

/// Whether looking up the choice may come to `choice`.
pub open spec fn may_choose<E: Fn() -> Option<String>>(spec: E, choice: Option<Seq<char>>) -> bool {
    exists|text: Option<String>| #[trigger] call_ensures(spec, (), text) && told(text) == choice
}

/// Whether opening `place` may come to `opened`.
pub open spec fn may_open<S, O: Fn(Endpoint) -> Option<S>>(
    open: O,
    place: Place,
    opened: Option<S>,
) -> bool {
    exists|e: Endpoint| #[trigger] call_ensures(open, (e,), opened) && e@ == place
}

/// How the host is reached: `spec` tells the choice, and `open` opens a stream,
/// or fails to. For the contracts only, it keeps the log of all that was asked
/// of the two.
#[verifier::reject_recursive_types(S)]
pub struct Dialer<
    S: for<'a> Fn(Action<'a>) -> Result<Vec<u8>, IoError>,
    E: Fn() -> Option<String>,
    O: Fn(Endpoint) -> Option<S>,
> {
    spec: E,
    open: O,
    log: Ghost<Seq<Dialed<S>>>,
}

impl<
    S: for<'a> Fn(Action<'a>) -> Result<Vec<u8>, IoError>,
    E: Fn() -> Option<String>,
    O: Fn(Endpoint) -> Option<S>,
> Dialer<S, E, O> {
    #[verifier::type_invariant]
    spec fn can_dial(&self) -> bool {
        is_dialer::<S, E, O>(self.spec, self.open)
    }

    /// The function that tells the choice, and the one that opens.
    pub closed spec fn functions(&self) -> (E, O) {
        (self.spec, self.open)
    }

    /// All that was asked so far, with what came of it.
    pub closed spec fn log(&self) -> Seq<Dialed<S>> {
        self.log@
    }

    /// A dialer of which nothing has been asked yet.
    pub fn new(spec: E, open: O) -> (d: Self)
        requires
            is_dialer::<S, E, O>(spec, open),
        ensures
            d.functions() == (spec, open),
            d.log() == Seq::<Dialed<S>>::empty(),
    {
        Dialer { spec, open, log: Ghost(Seq::empty()) }
    }

    /// Looks up the choice.
    pub fn choice(&mut self) -> (choice: Option<String>)
        ensures
            final(self).functions() == old(self).functions(),
            final(self).log() == old(self).log().push(Dialed::Chosen(told(choice))),
            may_choose(old(self).functions().0, told(choice)),
    {
        proof {
            use_type_invariant(&*self);
        }
        let choice = (self.spec)();
        self.log = Ghost(self.log@.push(Dialed::Chosen(told(choice))));
        choice
    }

    /// Opens an endpoint.
    pub fn open(&mut self, e: Endpoint) -> (opened: Option<S>)
        ensures
            final(self).functions() == old(self).functions(),
            final(self).log() == old(self).log().push(Dialed::Opened(e@, opened)),
            may_open(old(self).functions().1, e@, opened),
            opened matches Some(s) ==> stream::is_transport(s),
    {
        proof {
            use_type_invariant(&*self);
        }
        let ghost place = e@;
        let opened = (self.open)(e);
        self.log = Ghost(self.log@.push(Dialed::Opened(place, opened)));
        opened
    }
}

/// An endpoint is the place that it names, and a choice is the text that was
/// told.
pub proof fn law_endpoint_is_its_place(e: Endpoint, choice: Option<String>)
    ensures
        match e {
            Endpoint::Tcp(address) => e@ == Place::Tcp(address@),
            Endpoint::Unix(path) => e@ == Place::Unix(path@),
            Endpoint::Vsock { cid, port } => e@ == (Place::Vsock { cid, port }),
        },
        choice matches Some(text) ==> told(choice) == Some(text@),
        choice is None ==> told(choice) is None,
{
}

} // verus!
