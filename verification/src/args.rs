//! The server's invocation options, as plain data. The command-line parsing
//! that fills them in lives with the surrounding process; the defaults here
//! are the ones the parser advertises.

use vstd::prelude::*;

verus! {

/// Options of the server process.
pub struct Args {
    /// Data path.
    pub data_path: String,
    /// Public URL.
    pub pub_url: String,
    /// Public FQDN.
    pub pub_fqdn: String,
    /// Database URL.
    pub db_url: String,
    /// Database name.
    pub db_name: String,
    /// Plugins directory.
    pub plugin_dir: String,
    /// Google Calendar path.
    pub gc_path: String,
    /// Python path.
    pub py_path: String,
    /// Bind address.
    pub bind_addr: String,
    /// Port number.
    pub bind_port: u16,
    /// First run: merge the stores and exit.
    pub first_run: bool,
    /// Set http-secure on cookies to false.
    pub cookie_http_insecure: bool,
}

impl Default for Args {
    /// The defaults the command-line parser advertises; options without a
    /// default are empty or zero.
    fn default() -> (r: Args)
        ensures
            r.data_path@ == "sample-data"@,
            r.pub_url@ == "http://localhost:8081"@,
            r.pub_fqdn@ == "localhost"@,
            r.db_url@ == "mongodb://127.0.0.1:27017"@,
            r.db_name@ == "isabelle"@,
            r.plugin_dir@ == Seq::<char>::empty(),
            r.gc_path@ == Seq::<char>::empty(),
            r.py_path@ == Seq::<char>::empty(),
            r.bind_addr@ == "::"@,
            r.bind_port == 0,
            !r.first_run,
            !r.cookie_http_insecure,
    {
        Args {
            data_path: "sample-data".to_owned(),
            pub_url: "http://localhost:8081".to_owned(),
            pub_fqdn: "localhost".to_owned(),
            db_url: "mongodb://127.0.0.1:27017".to_owned(),
            db_name: "isabelle".to_owned(),
            plugin_dir: String::new(),
            gc_path: String::new(),
            py_path: String::new(),
            bind_addr: "::".to_owned(),
            bind_port: 0,
            first_run: false,
            cookie_http_insecure: false,
        }
    }
}

} // verus!
