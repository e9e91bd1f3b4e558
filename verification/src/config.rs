//! The program's settings.
use vstd::prelude::*;

use crate::text::{chars_of, decimal_digits, push_decimal, string_from_chars};

verus! {

/// The program's settings: how much it logs, and where it listens for
/// callbacks.
#[derive(Debug)]
pub struct Config {
    pub log_level: String,
    pub listen_address: String,
    pub listen_port: u16,
}

impl Default for Config {
    /// Logs at `info` and listens on port 9027 of every address.
    fn default() -> (r: Self)
        ensures
            r.log_level@ == "info"@,
            r.listen_address@ == "0.0.0.0"@,
            r.listen_port == 9027,
    {
        Config {
            log_level: "info".to_owned(),
            listen_address: "0.0.0.0".to_owned(),
            listen_port: 9027,
        }
    }
}

impl Config {
    /// The address to listen on: the listening address, `:`, and the port in
    /// decimal.
    pub fn socket_address(&self) -> (r: String)
        ensures
            r@ == self.listen_address@ + seq![':'] + decimal_digits(self.listen_port as nat),
    {
        let mut out = chars_of(self.listen_address.as_str());
        out.push(':');
        push_decimal(self.listen_port as u64, &mut out);
        string_from_chars(&out)
    }
}

} // verus!
