//! The server's configuration: listening port, snapshot location and the
//! master to replicate from.

use vstd::prelude::*;
use vstd::string::*;
use crate::text::{decimal_chars, decimal_string, same_text};

verus! {

/// Settings fixed at startup.
#[derive(Debug, Clone)]
pub struct Config {
    pub port: u16,
    pub dir: Option<String>,
    pub dbfilename: Option<String>,
    pub replicaof: Option<(String, u16)>,
}

pub open spec fn opt_view(o: Option<String>) -> Option<Seq<char>> {
    match o {
        Some(s) => Some(s@),
        None => None,
    }
}

impl Config {
    /// Port 6379, no snapshot location, not a replica.
    pub fn new() -> (r: Self)
        ensures
            r.port == 6379,
            r.dir is None,
            r.dbfilename is None,
            r.replicaof is None,
    {
        Config { port: 6379, dir: None, dbfilename: None, replicaof: None }
    }

    /// `<dir>/<dbfilename>` when both are set.
    pub fn get_file_path(&self) -> (r: Option<String>)
        ensures
            match (self.dir, self.dbfilename) {
                (Some(d), Some(f)) => opt_view(r) == Some(d@ + seq!['/'] + f@),
                _ => r is None,
            },
    {
        match (&self.dir, &self.dbfilename) {
            (Some(dir), Some(dbfilename)) => {
                let mut path = dir.clone();
                proof {
                    reveal_strlit("/");
                }
                path.append("/");
                path.append(dbfilename.as_str());
                Some(path)
            },
            _ => None,
        }
    }

    /// The value of `dir` or `dbfilename`; `None` for any other key.
    pub fn get_info(&self, key: &str) -> (r: Option<String>)
        ensures
            opt_view(r) == (if key@ == "dir"@ {
                opt_view(self.dir)
            } else if key@ == "dbfilename"@ {
                opt_view(self.dbfilename)
            } else {
                None
            }),
    {
        if same_text(key, "dir") {
            self.dir.clone()
        } else if same_text(key, "dbfilename") {
            self.dbfilename.clone()
        } else {
            None
        }
    }

    /// Like `get_info`, and also `port` in decimal and `replicaof` as
    /// `<host>:<port>`.
    pub fn get(&self, key: &str) -> (r: Option<String>)
        ensures
            opt_view(r) == (if key@ == "dir"@ {
                opt_view(self.dir)
            } else if key@ == "dbfilename"@ {
                opt_view(self.dbfilename)
            } else if key@ == "port"@ {
                Some(decimal_chars(self.port as nat))
            } else if key@ == "replicaof"@ {
                match self.replicaof {
                    Some((host, port)) => Some(host@ + seq![':'] + decimal_chars(port as nat)),
                    None => None,
                }
            } else {
                None
            }),
    {
        if same_text(key, "dir") {
            self.dir.clone()
        } else if same_text(key, "dbfilename") {
            self.dbfilename.clone()
        } else if same_text(key, "port") {
            Some(decimal_string(self.port as u64))
        } else if same_text(key, "replicaof") {
            match &self.replicaof {
                Some((host, port)) => {
                    let mut s = host.clone();
                    proof {
                        reveal_strlit(":");
                    }
                    s.append(":");
                    let p = decimal_string(*port as u64);
                    s.append(p.as_str());
                    Some(s)
                },
                None => None,
            }
        } else {
            None
        }
    }
}

} // verus!
