use vstd::prelude::*;

verus! {

/// The settings that a graph is stamped with.
#[derive(Debug)]
pub struct VeloxGraghSettings {
    version: String,
}

impl VeloxGraghSettings {
    /// The version of the store as text.
    pub closed spec fn view(&self) -> Seq<char> {
        self.version@
    }

    pub fn new() -> (r: VeloxGraghSettings)
        ensures
            r@ == "4.0"@,
    {
        VeloxGraghSettings { version: "4.0".to_string() }
    }

    /// The version that these settings were written for.
    pub fn version(&self) -> (r: &String)
        ensures
            r@ == self@,
    {
        &self.version
    }
}

} // verus!
