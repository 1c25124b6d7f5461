use vstd::prelude::*;
use vstd::string::StringExecFns;

verus! {

/// The process-wide configuration of a sync run: where the remote
/// service lives, which system and product the translations belong to,
/// which language is the base, and which local files take part.
pub struct Config {
    pub host: String,
    pub sub_system_name: String,
    pub product_code: String,
    pub product_id: i32,
    pub version_no: String,
    pub base_language: String,
    pub preview_mode: String,
    pub path_prefix: String,
    pub includes: Vec<String>,
    pub exclude: Vec<String>,
}

impl Default for Config {
    /// The configuration a fresh setup starts from, to be edited by
    /// the user before a real run.
    fn default() -> (r: Config)
        ensures
            r.host@ == "https://backoffice.devactstrade.com"@,
            r.sub_system_name@ == "app"@,
            r.product_code@ == "bos"@,
            r.product_id == 1,
            r.version_no@ == "1.0.0"@,
            r.base_language@ == "en-US"@,
            r.preview_mode@ == "1"@,
            r.path_prefix@ == "app"@,
            r.includes@.len() == 0,
            r.exclude@.len() == 0,
    {
        Config {
            host: String::from_str("https://backoffice.devactstrade.com"),
            sub_system_name: String::from_str("app"),
            product_code: String::from_str("bos"),
            product_id: 1,
            version_no: String::from_str("1.0.0"),
            base_language: String::from_str("en-US"),
            preview_mode: String::from_str("1"),
            path_prefix: String::from_str("app"),
            includes: Vec::new(),
            exclude: Vec::new(),
        }
    }
}

} // verus!
