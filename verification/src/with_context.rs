use vstd::prelude::*;
use vstd::string::StringExecFns;

verus! {

/// Something that gives a string when one is needed.
pub trait ProduceString {
    fn produce_string(&self) -> String;
}

impl ProduceString for String {
    fn produce_string(&self) -> (r: String)
        ensures
            r@ == self@,
    {
        self.clone()
    }
}

impl ProduceString for &str {
    fn produce_string(&self) -> (r: String)
        ensures
            r@ == self@,
    {
        String::from_str(self)
    }
}

/// The message of an error with its context: the context first, and then
/// what caused the error.
pub open spec fn in_context(context: Seq<char>, cause: Seq<char>) -> Seq<char> {
    "Error: "@ + context + "\n\nCaused by:\n    "@ + cause
}

/// The message of the error `cause` in the context `context`.
pub fn contextual_message(context: &str, cause: &str) -> (r: String)
    ensures
        r@ == in_context(context@, cause@),
{
    let mut r = String::from_str("Error: ");
    r.append(context);
    r.append("\n\nCaused by:\n    ");
    r.append(cause);
    r
}

/// A result whose error can be put into a context.
pub trait WithContext {
    fn with_context<S: ProduceString>(self, context: S) -> Self;
}

impl<T> WithContext for Result<T, String> {
    /// A success stays as it is. The message of a failure is put into the
    /// context that `context` gives, as `contextual_message` does.
    fn with_context<S: ProduceString>(self, context: S) -> (r: Self)
        ensures
            self is Ok ==> r == self,
            self is Err ==> r is Err && exists|given: Seq<char>|
                r->Err_0@ == in_context(given, self->Err_0@),
    {
        match self {
            Ok(result) => Ok(result),
            Err(error) => {
                let given = context.produce_string();
                let message = contextual_message(given.as_str(), error.as_str());
                proof {
                    assert(message@ == in_context(given@, error@));
                }
                Err(message)
            },
        }
    }
}

} // verus!
