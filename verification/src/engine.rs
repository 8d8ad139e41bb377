//! The engine interface and the choice of backend.
//!
//! `KvsEngine` is the three-method surface every storage backend offers.
//! `Engine` names the backend a data directory was created with, so that
//! a directory is never reopened under a different one.

use crate::error::Error;
use crate::error::ErrorKind;
use crate::store::KvStore;
use vstd::prelude::*;

verus! {

/// Compare two string slices character by character.
pub fn str_eq(a: &str, b: &str) -> (r: bool)
    ensures
        r == (a@ == b@),
{
    let la = a.unicode_len();
    let lb = b.unicode_len();
    if la != lb {
        return false;
    }
    let mut i: usize = 0;
    while i < la
        invariant
            i <= la,
            la == a@.len() && la == b@.len(),
            forall|t: int| 0 <= t < i ==> a@[t] == b@[t],
        decreases la - i,
    {
        if a.get_char(i) != b.get_char(i) {
            return false;
        }
        i = i + 1;
    }
    proof {
        assert(a@ =~= b@);
    }
    true
}

/// The code point of `c` with an ASCII capital letter folded to its
/// small form; any other character keeps its own code point.
pub open spec fn folded_code(c: char) -> u32 {
    if 65 <= c as u32 <= 90 {
        (c as u32 + 32) as u32
    } else {
        c as u32
    }
}

/// Whether two strings are equal once ASCII letter case is folded.
pub open spec fn str_fold_eq(a: Seq<char>, b: Seq<char>) -> bool {
    a.len() == b.len() && forall|i: int| 0 <= i < a.len() ==> folded_code(a[i]) == folded_code(b[i])
}

/// Compare two string slices, folding ASCII letter case.
pub fn str_eq_fold(a: &str, b: &str) -> (r: bool)
    ensures
        r == str_fold_eq(a@, b@),
{
    let la = a.unicode_len();
    let lb = b.unicode_len();
    if la != lb {
        return false;
    }
    let mut i: usize = 0;
    while i < la
        invariant
            i <= la,
            la == a@.len() && la == b@.len(),
            forall|t: int| 0 <= t < i ==> folded_code(a@[t]) == folded_code(b@[t]),
        decreases la - i,
    {
        let ua = a.get_char(i) as u32;
        let ub = b.get_char(i) as u32;
        let fa = if 65 <= ua && ua <= 90 {
            ua + 32
        } else {
            ua
        };
        let fb = if 65 <= ub && ub <= 90 {
            ub + 32
        } else {
            ub
        };
        if fa != fb {
            return false;
        }
        i = i + 1;
    }
    true
}

/// The interface of a key-value storage engine: its logical contents
/// are a mapping from keys to values, and each call reads or rewrites
/// that mapping.
pub trait KvsEngine: Sized {
    /// The engine's logical contents.
    spec fn model(&self) -> Map<Seq<char>, Seq<char>>;

    /// Whether the engine can accept another operation.
    spec fn ready(&self) -> bool;

    /// Sets a value to a key.
    fn set(&mut self, key: String, value: String) -> (r: Result<(), Error>)
        requires
            old(self).ready(),
        ensures
            r is Ok ==> final(self).model() == old(self).model().insert(key@, value@),
    ;

    /// Returns the value of a key, if the key exists.
    fn get(&self, key: String) -> (r: Result<Option<String>, Error>)
        requires
            self.ready(),
        ensures
            match r {
                Ok(Some(v)) => self.model().contains_key(key@) && v@ == self.model()[key@],
                Ok(None) => !self.model().contains_key(key@),
                Err(_) => true,
            },
    ;

    /// Removes a key.
    fn remove(&mut self, key: String) -> (r: Result<(), Error>)
        requires
            old(self).ready(),
        ensures
            r is Ok ==> final(self).model() == old(self).model().remove(key@),
    ;
}

impl KvsEngine for KvStore {
    open spec fn model(&self) -> Map<Seq<char>, Seq<char>> {
        self@
    }

    open spec fn ready(&self) -> bool {
        self.wf() && self.spec_gen() <= u64::MAX - 2
    }

    fn set(&mut self, key: String, value: String) -> (r: Result<(), Error>) {
        KvStore::set(self, key, value)
    }

    fn get(&self, key: String) -> (r: Result<Option<String>, Error>) {
        KvStore::get(self, key)
    }

    fn remove(&mut self, key: String) -> (r: Result<(), Error>) {
        match KvStore::remove(self, key) {
            Ok(()) => Ok(()),
            Err(e) => Err(e),
        }
    }
}

/// The storage backends a data directory can be created with.
#[derive(Debug, Clone, Copy, PartialEq, Eq, Structural)]
pub enum Engine {
    /// The log-structured engine this library provides.
    Kvs,
    /// The embedded-tree backend an external crate provides.
    Sled,
}

impl Engine {
    /// The string representation of the engine backend.
    pub fn as_str(&self) -> (r: &'static str)
        ensures
            r@ == self.spec_str(),
    {
        match *self {
            Self::Kvs => "kvs",
            Self::Sled => "sled",
        }
    }

    /// The representation as a sequence of characters, for contracts.
    pub open spec fn spec_str(self) -> Seq<char> {
        match self {
            Self::Kvs => "kvs"@,
            Self::Sled => "sled"@,
        }
    }

    /// Parse an engine name, folding ASCII letter case, so that any
    /// spelling of the two known names is accepted; anything else is
    /// rejected as an unsupported backend.
    pub fn from_name(s: &str) -> (r: Result<Engine, Error>)
        ensures
            str_fold_eq(s@, Engine::Kvs.spec_str()) ==> r == Ok::<Engine, Error>(Engine::Kvs),
            str_fold_eq(s@, Engine::Sled.spec_str()) ==> r == Ok::<Engine, Error>(Engine::Sled),
            !str_fold_eq(s@, Engine::Kvs.spec_str()) && !str_fold_eq(s@, Engine::Sled.spec_str())
                ==> match r {
                Ok(_) => false,
                Err(e) => e.spec_kind() == ErrorKind::UnsupportedKvsEngineBackend,
            },
    {
        proof {
            reveal_strlit("kvs");
            reveal_strlit("sled");
            assert("kvs"@.len() == 3);
            assert("sled"@.len() == 4);
        }
        if str_eq_fold(s, "kvs") {
            Ok(Engine::Kvs)
        } else if str_eq_fold(s, "sled") {
            Ok(Engine::Sled)
        } else {
            Err(Error::new(ErrorKind::UnsupportedKvsEngineBackend))
        }
    }

    /// Refuse to open a data directory under a different backend than
    /// the one it was created with, if any is on record.
    pub fn check_compat(previous: Option<Engine>, requested: Engine) -> (r: Result<Engine, Error>)
        ensures
            match previous {
                None => r == Ok::<Engine, Error>(requested),
                Some(p) => if p == requested {
                    r == Ok::<Engine, Error>(requested)
                } else {
                    match r {
                        Ok(_) => false,
                        Err(e) => e.spec_kind() == ErrorKind::MismatchedKvsEngineBackend,
                    }
                },
            },
    {
        match previous {
            None => Ok(requested),
            Some(p) => {
                if p == requested {
                    Ok(requested)
                } else {
                    Err(Error::new(ErrorKind::MismatchedKvsEngineBackend))
                }
            },
        }
    }
}

impl core::str::FromStr for Engine {
    type Err = Error;

    fn from_str(s: &str) -> Result<Engine, Error> {
        Engine::from_name(s)
    }
}

} // verus!
