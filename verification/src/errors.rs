//! Error vocabulary of the client: what went wrong while talking to the
//! remote service or while reading its answers.
use vstd::prelude::*;

verus! {

/// The error kinds the client reports.
#[derive(Debug)]
pub enum UntisError {
    Miscellaneous(String),
    Authentication(String),
    Parsing(String),
    Network(String),
}

pub ghost enum UntisErrorView {
    Miscellaneous(Seq<char>),
    Authentication(Seq<char>),
    Parsing(Seq<char>),
    Network(Seq<char>),
}

impl View for UntisError {
    type V = UntisErrorView;

    open spec fn view(&self) -> UntisErrorView {
        match self {
            UntisError::Miscellaneous(m) => UntisErrorView::Miscellaneous(m@),
            UntisError::Authentication(m) => UntisErrorView::Authentication(m@),
            UntisError::Parsing(m) => UntisErrorView::Parsing(m@),
            UntisError::Network(m) => UntisErrorView::Network(m@),
        }
    }
}

impl DeepView for UntisError {
    type V = UntisErrorView;

    open spec fn deep_view(&self) -> UntisErrorView {
        self.view()
    }
}

/// The message shown for an error: the kind as a prefix, then the detail.
pub open spec fn describe_spec(e: UntisErrorView) -> Seq<char> {
    match e {
        UntisErrorView::Authentication(m) => "Auth Error: "@ + m,
        UntisErrorView::Parsing(m) => "Parsing Error: "@ + m,
        UntisErrorView::Network(m) => "Network Error: "@ + m,
        UntisErrorView::Miscellaneous(m) => m,
    }
}

impl UntisError {
    /// Render the error for display.
    pub fn describe(&self) -> (r: String)
        ensures
            r@ == describe_spec(self@),
    {
        match self {
            UntisError::Authentication(m) => "Auth Error: ".to_owned().concat(m.as_str()),
            UntisError::Parsing(m) => "Parsing Error: ".to_owned().concat(m.as_str()),
            UntisError::Network(m) => "Network Error: ".to_owned().concat(m.as_str()),
            UntisError::Miscellaneous(m) => m.clone(),
        }
    }
}

impl From<String> for UntisError {
    fn from(s: String) -> (r: Self) {
        UntisError::Miscellaneous(s)
    }
}

impl vstd::std_specs::convert::FromSpecImpl<String> for UntisError {
    open spec fn obeys_from_spec() -> bool {
        true
    }

    open spec fn from_spec(s: String) -> Self {
        UntisError::Miscellaneous(s)
    }
}

impl<'a> From<&'a str> for UntisError {
    fn from(s: &'a str) -> (r: Self)
        ensures
            r@ == UntisErrorView::Miscellaneous(s@),
    {
        UntisError::Miscellaneous(s.to_owned())
    }
}

impl<'a> vstd::std_specs::convert::FromSpecImpl<&'a str> for UntisError {
    open spec fn obeys_from_spec() -> bool {
        false
    }

    open spec fn from_spec(s: &'a str) -> Self {
        arbitrary()
    }
}

} // verus!
