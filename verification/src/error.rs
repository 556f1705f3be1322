use vstd::prelude::*;

verus! {

/// A compiler error: a human readable message.
#[derive(Debug)]
pub struct Error {
    msg: String,
}

impl Error {
    /// The message this error carries.
    pub closed spec fn spec_msg(&self) -> Seq<char> {
        self.msg@
    }

    /// The error that `new` builds from `msg`.
    pub closed spec fn spec_from_string(msg: String) -> Error {
        Error { msg }
    }

    /// Builds an error from a message.
    pub fn new(msg: String) -> (e: Error)
        ensures
            e.spec_msg() == msg@,
            e == Error::spec_from_string(msg),
    {
        Error { msg }
    }

    /// The message of this error, as text.
    pub fn message(&self) -> (s: &String)
        ensures
            s@ == self.spec_msg(),
    {
        &self.msg
    }
}

impl From<String> for Error {
    fn from(e: String) -> (r: Self) {
        Error::new(e)
    }
}

impl vstd::std_specs::convert::FromSpecImpl<String> for Error {
    open spec fn obeys_from_spec() -> bool {
        true
    }

    open spec fn from_spec(e: String) -> Self {
        Error::spec_from_string(e)
    }
}

} // verus!
