use vstd::prelude::*;

verus! {

/// INDI devices in use and where the INDI server is.
#[derive(Debug, Clone)]
pub struct IndiOptions {
    pub mount: Option<String>,
    pub camera: Option<String>,
    pub guid_cam: Option<String>,
    pub focuser: Option<String>,
    pub flt_wheel: Option<String>,
    pub aux1: Option<String>,
    pub aux2: Option<String>,
    pub remote: bool,
    pub address: String,
}

impl Default for IndiOptions {
    fn default() -> (r: Self)
        ensures
            r.mount is None && r.camera is None && r.guid_cam is None && r.focuser is None,
            r.flt_wheel is None && r.aux1 is None && r.aux2 is None,
            !r.remote,
            r.address@ == "localhost"@,
    {
        IndiOptions {
            mount: None,
            camera: None,
            guid_cam: None,
            focuser: None,
            flt_wheel: None,
            aux1: None,
            aux2: None,
            remote: false,
            address: String::from_str("localhost"),
        }
    }
}

} // verus!
