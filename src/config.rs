//! Which engine a server runs, and the guard that keeps a directory with the
//! engine it was first served with. The choice is stored as a JSON string,
//! `"Kvs"` or `"Sled"`.
use vstd::prelude::*;
use crate::error::KvsError;
use crate::record::{
    encode_json_str, json_str_encoded, lemma_str_at, parse_str_at, read_str_at, str_encodable,
};
use crate::state::is_ws;

verus! {

/// The storage engine behind a server.
#[derive(Debug, Clone, Copy, PartialEq, Eq, Structural)]
pub enum EngineType {
    Kvs,
    Sled,
}

/// What the configuration guard asks of the caller.
#[derive(Debug, Clone, Copy, PartialEq, Eq, Structural)]
pub enum ConfDecision {
    /// The file is empty: write the requested engine into it.
    Record,
    /// The file already names the requested engine.
    Keep,
}

/// The lower-case form of a text, as `str::to_lowercase` gives it.
pub uninterp spec fn lower_of(s: Seq<char>) -> Seq<char>;

/// Relies on str::to_lowercase: the result depends on the text alone.
#[verifier::external_body]
fn lowercase(s: &str) -> (r: String)
    ensures
        r@ == lower_of(s@),
{
    s.to_lowercase()
}

/// The engine that a lower-case command-line name selects.
pub open spec fn engine_of_name(s: Seq<char>) -> Option<EngineType> {
    if s == "kvs"@ {
        Some(EngineType::Kvs)
    } else if s == "sled"@ {
        Some(EngineType::Sled)
    } else {
        None
    }
}

/// The name under which an engine is stored and shown.
pub open spec fn engine_tag(e: EngineType) -> Seq<char> {
    match e {
        EngineType::Kvs => "Kvs"@,
        EngineType::Sled => "Sled"@,
    }
}

pub open spec fn engine_of_tag(s: Seq<char>) -> Option<EngineType> {
    if s == "Kvs"@ {
        Some(EngineType::Kvs)
    } else if s == "Sled"@ {
        Some(EngineType::Sled)
    } else {
        None
    }
}

/// The first position at or after `i` that is not whitespace.
pub open spec fn skip_ws(b: Seq<u8>, i: int) -> int
    decreases b.len() - i,
{
    if 0 <= i < b.len() && is_ws(b[i]) {
        skip_ws(b, i + 1)
    } else {
        i
    }
}

pub open spec fn ws_from(b: Seq<u8>, i: int) -> bool {
    forall|j: int| i <= j < b.len() ==> is_ws(#[trigger] b[j])
}

/// The engine that the bytes of a configuration file name: one JSON string,
/// with whitespace around it, that is a known tag.
pub open spec fn stored_engine(b: Seq<u8>) -> Option<EngineType> {
    match parse_str_at(b, skip_ws(b, 0)) {
        Some((s, e)) => if ws_from(b, e) {
            engine_of_tag(s)
        } else {
            None
        },
        None => None,
    }
}

/// What the guard decides for file contents `b` and the requested engine.
pub open spec fn conf_decision(b: Seq<u8>, requested: EngineType) -> Result<ConfDecision, KvsError> {
    if b.len() == 0 {
        Ok(ConfDecision::Record)
    } else {
        match stored_engine(b) {
            Some(e) => if e == requested {
                Ok(ConfDecision::Keep)
            } else {
                Err(KvsError::ConfigMismatch)
            },
            None => Err(KvsError::Parse),
        }
    }
}

impl EngineType {
    /// The engine that a command-line name selects, in any case.
    pub fn from_name(s: &str) -> (r: Result<EngineType, KvsError>)
        ensures
            r == match engine_of_name(lower_of(s@)) {
                Some(e) => Ok::<EngineType, KvsError>(e),
                None => Err(KvsError::Parse),
            },
    {
        let l = lowercase(s);
        EngineType::from_lowercase_name(&l)
    }

    /// The engine that a lower-case command-line name selects.
    pub fn from_lowercase_name(l: &String) -> (r: Result<EngineType, KvsError>)
        ensures
            r == match engine_of_name(l@) {
                Some(e) => Ok::<EngineType, KvsError>(e),
                None => Err(KvsError::Parse),
            },
    {
        if *l == String::from_str("kvs") {
            Ok(EngineType::Kvs)
        } else if *l == String::from_str("sled") {
            Ok(EngineType::Sled)
        } else {
            Err(KvsError::Parse)
        }
    }

    /// The name under which the engine is stored and shown.
    pub fn tag(&self) -> (r: String)
        ensures
            r@ == engine_tag(*self),
    {
        match self {
            EngineType::Kvs => String::from_str("Kvs"),
            EngineType::Sled => String::from_str("Sled"),
        }
    }
}

/// The bytes that record `e` in a configuration file.
pub fn conf_bytes(e: EngineType) -> (r: Vec<u8>)
    ensures
        r@ == json_str_encoded(engine_tag(e)),
        str_encodable(engine_tag(e)),
{
    let t = e.tag();
    encode_json_str(t.as_str())
}

/// The configuration guard: an empty file is to be written with the
/// requested engine; a file that names it is kept; one that names the other
/// engine is a `ConfigMismatch`, and anything else a `Parse` error.
pub fn check_conf(b: &[u8], requested: EngineType) -> (r: Result<ConfDecision, KvsError>)
    ensures
        r == conf_decision(b@, requested),
{
    let n = b.len();
    if n == 0 {
        return Ok(ConfDecision::Record);
    }
    let mut a: usize = 0;
    while a < n && (b[a] == 32u8 || b[a] == 9u8 || b[a] == 10u8 || b[a] == 13u8)
        invariant
            n == b@.len(),
            a <= n,
            skip_ws(b@, a as int) == skip_ws(b@, 0),
        decreases n - a,
    {
        a = a + 1;
    }
    assert(skip_ws(b@, a as int) == a as int);
    match read_str_at(b, a) {
        None => Err(KvsError::Parse),
        Some((s, e)) => {
            let mut j: usize = e;
            while j < n
                invariant
                    n == b@.len(),
                    n > 0,
                    e <= j <= n,
                    parse_str_at(b@, skip_ws(b@, 0)) == Some((s@, e as int)),
                    forall|t: int| e <= t < j ==> is_ws(#[trigger] b@[t]),
                decreases n - j,
            {
                if !(b[j] == 32u8 || b[j] == 9u8 || b[j] == 10u8 || b[j] == 13u8) {
                    assert(!ws_from(b@, e as int));
                    return Err(KvsError::Parse);
                }
                j = j + 1;
            }
            let stored = if s == String::from_str("Kvs") {
                EngineType::Kvs
            } else if s == String::from_str("Sled") {
                EngineType::Sled
            } else {
                return Err(KvsError::Parse);
            };
            if stored == requested {
                Ok(ConfDecision::Keep)
            } else {
                Err(KvsError::ConfigMismatch)
            }
        },
    }
}

/// A directory whose configuration file was written for one engine is kept
/// for that engine and refused for the other.
pub proof fn lemma_conf_guard(written: EngineType, requested: EngineType)
    requires
        str_encodable(engine_tag(written)),
    ensures
        conf_decision(json_str_encoded(engine_tag(written)), requested) == (if written == requested {
            Ok::<ConfDecision, KvsError>(ConfDecision::Keep)
        } else {
            Err::<ConfDecision, KvsError>(KvsError::ConfigMismatch)
        }),
{
    let b = json_str_encoded(engine_tag(written));
    lemma_str_at(Seq::empty(), b, Seq::empty(), engine_tag(written));
    assert(Seq::<u8>::empty() + b + Seq::<u8>::empty() =~= b);
    assert(b[0] == 34u8);
    assert(skip_ws(b, 0) == 0);
    reveal_strlit("Kvs");
    reveal_strlit("Sled");
    assert("Kvs"@ != "Sled"@) by {
        assert("Kvs"@.len() != "Sled"@.len());
    }
}

} // verus!
