use vstd::prelude::*;

verus! {

/// Where the ASCOM Alpaca server listens.
#[derive(Debug, Clone)]
pub struct AscomAlpacaOptions {
    pub address: String,
}

impl Default for AscomAlpacaOptions {
    fn default() -> (r: Self)
        ensures
            r.address@ == "http://localhost:11111"@,
    {
        AscomAlpacaOptions { address: String::from_str("http://localhost:11111") }
    }
}

} // verus!
