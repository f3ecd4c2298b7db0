use vstd::prelude::*;

use crate::decimal::dec_of;
use crate::decimal::dec_string;

verus! {

/// Connection defaults for the backend chat service, plus whether the
/// hint pane is enabled.
pub struct Config {
    pub address: String,
    pub port: u16,
    pub hinting: bool,
}

/// Abstract value of a [`Config`].
#[verifier::ext_equal]
pub struct ConfigView {
    pub address: Seq<char>,
    pub port: u16,
    pub hinting: bool,
}

impl View for Config {
    type V = ConfigView;

    open spec fn view(&self) -> ConfigView {
        ConfigView { address: self.address@, port: self.port, hinting: self.hinting }
    }
}

/// The configuration the client starts with.
pub open spec fn default_config() -> ConfigView {
    ConfigView { address: "localhost"@, port: 11434, hinting: true }
}

impl Default for Config {
    fn default() -> (c: Config)
        ensures
            c@ == default_config(),
    {
        Config { address: String::from_str("localhost"), port: 11434, hinting: true }
    }
}

impl Config {
    /// The configuration as ordered key/value pairs of text, for display.
    pub fn settings_pairs(&self) -> (r: Vec<(String, String)>)
        ensures
            r@.len() == 3,
            r@[0].0@ == "address"@ && r@[0].1@ == self.address@,
            r@[1].0@ == "port"@ && r@[1].1@ == dec_of(self.port as nat),
            r@[2].0@ == "hinting"@ && r@[2].1@ == (if self.hinting {
                "true"@
            } else {
                "false"@
            }),
    {
        let mut r: Vec<(String, String)> = Vec::new();
        r.push((String::from_str("address"), self.address.clone()));
        r.push((String::from_str("port"), dec_string(self.port as u64)));
        let h = if self.hinting {
            String::from_str("true")
        } else {
            String::from_str("false")
        };
        r.push((String::from_str("hinting"), h));
        r
    }
}

} // verus!
