use vstd::prelude::*;

verus! {

/// The built-in filler corpus used when no source text is supplied.
pub const DEFAULT_PLACEHOLDER: &'static str =
    "Lorem ipsum dolor sit amet, consectetur adipiscing elit, sed do eiusmod tempor incididunt ut labore et dolore magna aliqua. Ut enim ad minim veniam, quis nostrud exercitation ullamco laboris nisi ut aliquip ex ea commodo consequat. Duis aute irure dolor in reprehenderit in voluptate velit esse cillum dolore eu fugiat nulla pariatur. Excepteur sint occaecat cupidatat non proident, sunt in culpa qui officia deserunt mollit anim id est laborum.";

/// A wrapper normalizing an optional source text to a concrete one,
/// falling back to the built-in corpus.
pub struct Placeholder(pub Option<String>);

impl Placeholder {
    /// The text this placeholder stands for.
    pub open spec fn text(self) -> Seq<char> {
        match self.0 {
            Option::Some(s) => s@,
            Option::None => DEFAULT_PLACEHOLDER@,
        }
    }

    /// The supplied string if present, the default corpus otherwise.
    pub fn resolve(&self) -> (r: String)
        ensures
            r@ == self.text(),
    {
        match &self.0 {
            Option::Some(s) => s.clone(),
            Option::None => DEFAULT_PLACEHOLDER.to_owned(),
        }
    }
}

impl From<Option<String>> for Placeholder {
    fn from(value: Option<String>) -> (r: Self)
        ensures
            r == Placeholder(value),
    {
        Placeholder(value)
    }
}

impl vstd::std_specs::convert::FromSpecImpl<Option<String>> for Placeholder {
    open spec fn obeys_from_spec() -> bool {
        true
    }

    open spec fn from_spec(v: Option<String>) -> Placeholder {
        Placeholder(v)
    }
}

} // verus!
