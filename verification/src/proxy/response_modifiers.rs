//! One configured header change, made to the response.
use crate::config::internal::HeaderModifier;
use crate::proxy::headers::{self, Headers};
use crate::proxy::message::ResponseHead;
use vstd::prelude::*;

verus! {

/// Applies one configured header change to the response.
#[derive(Debug)]
pub struct HeaderMod {
    pub modifier: HeaderModifier,
}

impl HeaderMod {
    pub fn new(modifier: HeaderModifier) -> (r: Self)
        ensures
            r.modifier == modifier,
    {
        HeaderMod { modifier }
    }

    /// Makes the change. Nothing but the headers is touched.
    pub fn upstream_response_filter(&self, header: &mut ResponseHead)
        requires
            headers::modifier_wf(self.modifier),
        ensures
            final(header).list() == headers::changed(self.modifier, old(header).list()),
            final(header).rest() == old(header).rest(),
    {
        headers::apply(&self.modifier, header);
    }
}

} // verus!
