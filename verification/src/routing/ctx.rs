//! Request and route-handler contexts.

use vstd::prelude::*;
use crate::path::VfsPath;
use super::params::{ParamsView, RouteParams};

verus! {

/// Request-scoped context: the directory path a request targets.
pub struct RequestContext<'a> {
    pub path: &'a VfsPath,
}

/// Context of a rename: the request on the source directory, the full
/// target path and the new name in the target directory.
pub struct RenameContext<'a> {
    pub request: &'a RequestContext<'a>,
    pub target_path: &'a VfsPath,
    pub target_name: &'a str,
}

/// Handler context: the request plus the captures of the matched route.
pub struct RouteCtx<'a> {
    request: &'a RequestContext<'a>,
    params: RouteParams,
}

impl<'a> RouteCtx<'a> {
    /// Components of the request path.
    pub closed spec fn path_view(&self) -> Seq<Seq<char>> {
        self.request.path@
    }

    /// Captures available to the handler.
    pub closed spec fn params_view(&self) -> ParamsView {
        self.params.pv()
    }

    /// A context for `request` carrying `params`.
    pub fn new(request: &'a RequestContext<'a>, params: RouteParams) -> (r: Self)
        ensures
            r.path_view() == request.path@,
            r.params_view() == params.pv(),
    {
        RouteCtx { request, params }
    }

    /// The single-segment capture `name`, which the route must capture.
    pub fn param(&self, name: &str) -> (r: &str)
        requires
            self.params_view().singles.contains_key(name@),
        ensures
            r@ == self.params_view().singles[name@],
    {
        self.params.get(name)
    }

    /// The rest capture `name`, which the route must capture.
    pub fn params(&self, name: &str) -> (r: &[String])
        requires
            self.params_view().rest.contains_key(name@),
        ensures
            super::params::strings_view(r@) == self.params_view().rest[name@],
    {
        self.params.get_rest(name)
    }

    /// The captures.
    pub fn route_params(&self) -> (r: &RouteParams)
        ensures
            r.pv() == self.params_view(),
    {
        &self.params
    }

    /// The request context.
    pub fn request(&self) -> (r: &RequestContext<'a>)
        ensures
            r.path@ == self.path_view(),
    {
        self.request
    }

    /// Give back the captures.
    pub fn into_params(self) -> (r: RouteParams)
        ensures
            r.pv() == self.params_view(),
    {
        self.params
    }
}

} // verus!
