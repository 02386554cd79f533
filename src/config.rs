//! Server configuration: where the snapshot lives, the port, and the
//! primary that this server replicates, if any.

use vstd::prelude::*;
use vstd::utf8::encode_utf8;
use crate::decimal::{int_text_value, parse_int};

verus! {

/// The port a server listens on unless told otherwise.
pub const DEFAULT_PORT: u16 = 6379;

pub struct ReplicaOf {
    pub host: String,
    pub port: u16,
}

pub struct Config {
    pub dir: Option<String>,
    pub db_filename: Option<String>,
    pub port: u16,
    pub replica_of: Option<ReplicaOf>,
}

pub enum ConfigError {
    /// The port of `--replicaof` is not a `u16`.
    InvalidReplicaPort(String),
}

impl Config {
    /// No snapshot, the default port, no primary.
    pub fn default() -> (r: Config)
        ensures
            r.dir is None,
            r.db_filename is None,
            r.port == DEFAULT_PORT,
            r.replica_of is None,
    {
        Config { dir: None, db_filename: None, port: DEFAULT_PORT, replica_of: None }
    }

    /// Takes each setting that is given from the command line. The port of
    /// a primary is parsed as a `u16`; where it is not one, the other
    /// settings are taken and the primary is not.
    pub fn apply_arguments(
        &mut self,
        dir: Option<String>,
        db_filename: Option<String>,
        port: Option<u16>,
        replica_of: Option<(String, String)>,
    ) -> (r: Result<(), ConfigError>)
        ensures
            final(self).dir == (if dir is Some { dir } else { old(self).dir }),
            final(self).db_filename == (if db_filename is Some { db_filename } else { old(self).db_filename }),
            final(self).port == (match port { Some(p) => p, None => old(self).port }),
            match replica_of {
                None => r is Ok && final(self).replica_of == old(self).replica_of,
                Some((host, port_text)) => match int_text_value(encode_utf8(port_text@), 0, u16::MAX as int) {
                    Some(p) => r is Ok && final(self).replica_of == Some(ReplicaOf { host, port: p as u16 }),
                    None => r matches Err(ConfigError::InvalidReplicaPort(t)) && t@ == port_text@
                        && final(self).replica_of == old(self).replica_of,
                },
            },
    {
        if dir.is_some() {
            self.dir = dir;
        }
        if db_filename.is_some() {
            self.db_filename = db_filename;
        }
        if let Some(p) = port {
            self.port = p;
        }
        if let Some((host, port_text)) = replica_of {
            match parse_int(port_text.as_str().as_bytes(), 0, 65535) {
                Some(p) => {
                    self.replica_of = Some(ReplicaOf { host, port: p as u16 });
                },
                None => return Err(ConfigError::InvalidReplicaPort(port_text)),
            }
        }
        Ok(())
    }

    /// The directory and file name of the snapshot, where both are set.
    pub fn snapshot_location(&self) -> (r: Option<(&String, &String)>)
        ensures
            match r {
                Some((d, f)) => self.dir == Some(*d) && self.db_filename == Some(*f),
                None => self.dir is None || self.db_filename is None,
            },
    {
        match (&self.dir, &self.db_filename) {
            (Some(d), Some(f)) => Some((d, f)),
            _ => None,
        }
    }
}

} // verus!
