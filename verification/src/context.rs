//! The facts that the stages of a request's handling leave for later stages.

use vstd::prelude::*;
use crate::credentials::{Basic, BasicView};
use crate::params::{UriParams, UriParamsView};
use crate::username::{ProxyFilter, ProxyFilterView};

verus! {

/// The facts recorded for one request: at most one of each kind, a later one
/// of a kind taking the place of an earlier one.
#[derive(Debug)]
pub struct Extensions {
    /// The parameters of the path, left by a path filter that matched.
    pub uri_params: Option<UriParams>,
    /// The identity that an authority accepted.
    pub basic: Option<Basic>,
    /// The filter that the accepted user name carried.
    pub filter: Option<ProxyFilter>,
}

/// The recorded facts as mathematical values.
pub struct ExtensionsView {
    pub uri_params: Option<UriParamsView>,
    pub basic: Option<BasicView>,
    pub filter: Option<ProxyFilterView>,
}

impl ExtensionsView {
    /// No fact of any kind.
    pub open spec fn empty() -> ExtensionsView {
        ExtensionsView { uri_params: None, basic: None, filter: None }
    }
}

impl View for Extensions {
    type V = ExtensionsView;

    open spec fn view(&self) -> ExtensionsView {
        ExtensionsView {
            uri_params: match self.uri_params {
                Some(params) => Some(params@),
                None => None,
            },
            basic: match self.basic {
                Some(basic) => Some(basic@),
                None => None,
            },
            filter: match self.filter {
                Some(filter) => Some(filter@),
                None => None,
            },
        }
    }
}

impl Extensions {
    /// A context with no fact recorded.
    pub fn new() -> (ext: Extensions)
        ensures
            ext@ == ExtensionsView::empty(),
    {
        Extensions { uri_params: None, basic: None, filter: None }
    }
}

} // verus!
