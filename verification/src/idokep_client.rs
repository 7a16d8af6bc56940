use vstd::prelude::*;

pub mod number_recognition;
pub mod png;

verus! {

/// Client state for the weather page whose readings are published as small
/// embedded images. Fetching the page and extracting the embedded payload
/// are I/O concerns owned by the caller; this type only carries the target
/// address and the last page body handed back by the caller.
pub struct IdokepClient<'a> {
    pub automata_url: &'a str,
    pub page_body: Option<String>,
}

impl<'a> IdokepClient<'a> {
    pub fn new() -> (r: Self)
        ensures
            r.automata_url@ == "https://www.idokep.hu/automata/globallhotel"@,
            r.page_body is None,
    {
        IdokepClient {
            automata_url: "https://www.idokep.hu/automata/globallhotel",
            page_body: None,
        }
    }
}

} // verus!
