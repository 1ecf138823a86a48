//! The application configuration record: process-wide default settings,
//! persisted as one record in the embedded store by the surrounding
//! application, with the same split as the profile store: the codec and
//! the in-memory value live here, the disk lives outside.

use vstd::prelude::*;

use crate::codec::{dec_str, enc_str};
use crate::fs::FsError;

verus! {

/// Why a configuration operation failed.
#[derive(Debug, Clone)]
pub enum ConfigError {
    DbError(String),
    CodecError(String),
    FsUtilsError(FsError),
}

/// Default settings applied when a profile does not override them.  The
/// wine root is carried as the text of a filesystem path.
#[derive(Debug, Clone, PartialEq)]
pub struct Defaults {
    pub wineroot_path: String,
}

/// The persisted application configuration.
#[derive(Debug, Clone, PartialEq)]
pub struct Config {
    pub defaults: Defaults,
}

impl View for Defaults {
    type V = Seq<char>;

    open spec fn view(&self) -> Seq<char> {
        self.wineroot_path@
    }
}

impl View for Config {
    type V = Seq<char>;

    open spec fn view(&self) -> Seq<char> {
        self.defaults@
    }
}

impl Default for Defaults {
    /// An empty wine root path.
    fn default() -> (r: Defaults)
        ensures
            r@ == Seq::<char>::empty(),
    {
        Defaults { wineroot_path: String::new() }
    }
}

impl Default for Config {
    /// The configuration with every default empty.
    fn default() -> (r: Config)
        ensures
            r@ == Seq::<char>::empty(),
    {
        Config { defaults: Defaults { wineroot_path: String::new() } }
    }
}

/// A configuration snapshot: the wine root path as one length-prefixed
/// string.
pub open spec fn enc_config(c: Seq<char>) -> Seq<u8> {
    enc_str(c)
}

/// Read a configuration snapshot; trailing bytes are rejected.
pub open spec fn dec_config(b: Seq<u8>) -> Option<Seq<char>> {
    match dec_str(b, 0) {
        Option::Some((s, p)) => if p == b.len() {
            Option::Some(s)
        } else {
            Option::None
        },
        Option::None => Option::None,
    }
}

/// Decoding an encoded configuration gives back what was encoded.
pub proof fn lemma_config_round_trip(c: Seq<char>)
    requires
        c.len() < 0x1_0000_0000_0000_0000,
    ensures
        dec_config(enc_config(c)) == Option::Some(c),
{
    let b = enc_config(c);
    assert(b.subrange(0, b.len() as int) =~= b);
    crate::codec::lemma_dec_enc_str(b, 0, c);
}

impl Config {
    /// Replace the default settings wholesale.
    pub fn update_defaults(&mut self, new_defaults: Defaults)
        ensures
            final(self).defaults == new_defaults,
    {
        self.defaults = new_defaults;
    }

    /// Encode the configuration as one snapshot byte string.
    pub fn serialize(&self) -> (r: Vec<u8>)
        ensures
            r@ == enc_config(self@),
    {
        let mut out: Vec<u8> = Vec::new();
        crate::codec::push_str(&mut out, &self.defaults.wineroot_path);
        proof {
            assert(out@ =~= enc_config(self@));
        }
        out
    }

    /// Decode a snapshot byte string.  Succeeds exactly on the byte
    /// strings the encoder produces; anything else is reported as a codec
    /// failure.
    pub fn deserialize(bytes: &[u8]) -> (r: Result<Config, ConfigError>)
        ensures
            (r is Ok) <==> (dec_config(bytes@) is Some),
            r matches Result::Ok(c) ==> Option::Some(c@) == dec_config(bytes@),
            r matches Result::Err(e) ==> e matches ConfigError::CodecError(_),
    {
        match crate::codec::read_str(bytes, 0) {
            Option::Some((s, p)) => {
                if p == bytes.len() {
                    Result::Ok(Config { defaults: Defaults { wineroot_path: s } })
                } else {
                    Result::Err(
                        ConfigError::CodecError(
                            String::from_str("configuration record has trailing bytes"),
                        ),
                    )
                }
            },
            Option::None => Result::Err(
                ConfigError::CodecError(String::from_str("configuration record is malformed")),
            ),
        }
    }

    /// Build the configuration from the record read back from disk:
    /// absent means the default configuration, present bytes are decoded.
    pub fn from_snapshot(snapshot: Option<Vec<u8>>) -> (r: Result<Config, ConfigError>)
        ensures
            snapshot is None ==> (r matches Result::Ok(c) && c@ == Seq::<char>::empty()),
            snapshot matches Option::Some(bts) ==> {
                &&& ((r is Ok) <==> (dec_config(bts@) is Some))
                &&& (r matches Result::Ok(c) ==> Option::Some(c@) == dec_config(bts@))
                &&& (r matches Result::Err(e) ==> e matches ConfigError::CodecError(_))
            },
    {
        match snapshot {
            Option::Some(bts) => Config::deserialize(bts.as_slice()),
            Option::None => Result::Ok(Config::default()),
        }
    }
}

} // verus!
