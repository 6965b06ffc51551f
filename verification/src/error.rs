//! Failures, told apart by the text that is shown to the user.
use vstd::prelude::*;

verus! {

/// Why an operation was refused.
#[derive(Clone, Debug)]
pub struct Error {
    pub text: String,
}

impl View for Error {
    type V = Seq<char>;

    open spec fn view(&self) -> Seq<char> {
        self.text@
    }
}

impl Error {
    /// A failure with the given text.
    pub fn new(text: &str) -> (r: Error)
        ensures
            r@ == text@,
    {
        Error { text: text.to_owned() }
    }

    /// A failure whose text ends in what it is about.
    pub fn about(text: &str, subject: &str) -> (r: Error)
        ensures
            r@ == text@ + subject@,
    {
        Error { text: text.to_owned().concat(subject) }
    }

    /// The same failure, told with the operation that it stopped.
    pub fn within(self, context: &str) -> (r: Error)
        ensures
            r@ == context@ + ": "@ + self@,
    {
        Error { text: context.to_owned().concat(": ").concat(self.text.as_str()) }
    }
}

/// What a result says, over views.
pub open spec fn outcome<T: View>(r: Result<T, Error>) -> Result<T::V, Seq<char>> {
    match r {
        Ok(value) => Ok(value@),
        Err(error) => Err(error@),
    }
}

} // verus!
