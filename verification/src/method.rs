//! Request methods.
use crate::text::same_ignoring_case;
use vstd::prelude::*;

verus! {

/// The method of a request.
#[derive(Debug, PartialEq, Eq)]
pub enum HttpMethod {
    Get,
    Post,
    Put,
    Options,
    Delete,
    Head,
    Connect,
    /// A method of another name.
    Unknown(String),
}

/// What an [`HttpMethod`] stands for.
pub enum MethodView {
    Get,
    Post,
    Put,
    Options,
    Delete,
    Head,
    Connect,
    Unknown(Seq<char>),
}

impl View for HttpMethod {
    type V = MethodView;

    open spec fn view(&self) -> MethodView {
        match *self {
            HttpMethod::Get => MethodView::Get,
            HttpMethod::Post => MethodView::Post,
            HttpMethod::Put => MethodView::Put,
            HttpMethod::Options => MethodView::Options,
            HttpMethod::Delete => MethodView::Delete,
            HttpMethod::Head => MethodView::Head,
            HttpMethod::Connect => MethodView::Connect,
            HttpMethod::Unknown(name) => MethodView::Unknown(name@),
        }
    }
}

/// The method that goes by `name`, whatever the case of its letters.
pub open spec fn method_named(name: Seq<char>) -> MethodView {
    if same_ignoring_case(name, "get"@) {
        MethodView::Get
    } else if same_ignoring_case(name, "post"@) {
        MethodView::Post
    } else if same_ignoring_case(name, "options"@) {
        MethodView::Options
    } else if same_ignoring_case(name, "head"@) {
        MethodView::Head
    } else if same_ignoring_case(name, "connect"@) {
        MethodView::Connect
    } else if same_ignoring_case(name, "delete"@) {
        MethodView::Delete
    } else if same_ignoring_case(name, "put"@) {
        MethodView::Put
    } else {
        MethodView::Unknown(name)
    }
}

impl<'a> vstd::std_specs::convert::FromSpecImpl<&'a str> for HttpMethod {
    open spec fn obeys_from_spec() -> bool {
        false
    }

    open spec fn from_spec(method: &'a str) -> HttpMethod {
        arbitrary()
    }
}

impl<'a> From<&'a str> for HttpMethod {
    fn from(method: &'a str) -> (r: HttpMethod)
        ensures
            r@ == method_named(method@),
    {
        if method.eq_ignore_ascii_case("get") {
            HttpMethod::Get
        } else if method.eq_ignore_ascii_case("post") {
            HttpMethod::Post
        } else if method.eq_ignore_ascii_case("options") {
            HttpMethod::Options
        } else if method.eq_ignore_ascii_case("head") {
            HttpMethod::Head
        } else if method.eq_ignore_ascii_case("connect") {
            HttpMethod::Connect
        } else if method.eq_ignore_ascii_case("delete") {
            HttpMethod::Delete
        } else if method.eq_ignore_ascii_case("put") {
            HttpMethod::Put
        } else {
            HttpMethod::Unknown(method.to_owned())
        }
    }
}

impl Clone for HttpMethod {
    fn clone(&self) -> (r: HttpMethod)
        ensures
            r@ == self@,
    {
        match self {
            HttpMethod::Get => HttpMethod::Get,
            HttpMethod::Post => HttpMethod::Post,
            HttpMethod::Put => HttpMethod::Put,
            HttpMethod::Options => HttpMethod::Options,
            HttpMethod::Delete => HttpMethod::Delete,
            HttpMethod::Head => HttpMethod::Head,
            HttpMethod::Connect => HttpMethod::Connect,
            HttpMethod::Unknown(name) => HttpMethod::Unknown(name.clone()),
        }
    }
}

} // verus!
