//! The record of the calls of functions of beans.
use crate::error::BoxError;
use crate::lifecycle::CustomFn;
use crate::operations::{handling, law_handling, law_making, making};
use vstd::prelude::*;

verus! {

/// One call of a function of a bean, and what came of it.
pub struct Call {
    pub f: CustomFn,
    pub r: Result<(), BoxError>,
}

/// The record of the calls of functions of beans. Whoever calls one needs it.
pub struct CallLog {
    made: Ghost<Seq<Call>>,
}

impl View for CallLog {
    type V = Seq<Call>;

    closed spec fn view(&self) -> Seq<Call> {
        self.made@
    }
}

impl CallLog {
    /// A record of no calls.
    ///
    /// A record is made by those who use the library. Nothing that the library does makes one
    /// on its own: a contract may not speak of a function that calls, in any way, the
    /// function which the contract is for, and this contract speaks of what the library does.
    /// So a function of a bean is only ever called on a record that was handed in.
    pub fn new() -> (log: Self)
        ensures
            log@ == Seq::<Call>::empty(),
            handling(),
            making(),
    {
        proof {
            law_handling();
            law_making();
        }
        CallLog { made: Ghost(Seq::empty()) }
    }

    /// Puts a call on record.
    pub(crate) fn note(&mut self, call: Ghost<Call>)
        ensures
            final(self)@ == old(self)@.push(call@),
    {
        let ghost longer = self.made@.push(call@);
        self.made = Ghost(longer);
    }
}

} // verus!
