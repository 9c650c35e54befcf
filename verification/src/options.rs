//! The options of the FSM generator: the diagram file, sub-FSM files, a naming template and a
//! log level. Reading them from the macro's tokens happens outside the library; the rules they
//! follow are here.
use vstd::prelude::*;

use crate::error::concat;
use crate::naming::NamingTemplate;
use crate::text::{blank, is_blank};

verus! {

/// How much the generated FSM logs about its transitions.
#[derive(Debug, Clone, Copy, PartialEq, Eq, Structural)]
pub enum LogLevel {
    Error,
    Warn,
    Info,
    Debug,
    Trace,
}

/// `str::to_lowercase` of `s`.
pub uninterp spec fn lowercase(s: Seq<char>) -> Seq<char>;

/// `str::to_lowercase`.
#[verifier::external_body]
fn to_lowercase(s: &str) -> (r: String)
    ensures
        r@ == lowercase(s@),
{
    s.to_lowercase()
}

/// The log level a name stands for, in any case.
pub open spec fn spec_log_level(s: Seq<char>) -> Option<LogLevel> {
    let l = lowercase(s);
    if l == "error"@ {
        Some(LogLevel::Error)
    } else if l == "warn"@ {
        Some(LogLevel::Warn)
    } else if l == "info"@ {
        Some(LogLevel::Info)
    } else if l == "debug"@ {
        Some(LogLevel::Debug)
    } else if l == "trace"@ {
        Some(LogLevel::Trace)
    } else {
        None
    }
}

/// The message for a name that is no log level.
pub open spec fn invalid_log_level_message() -> Seq<char> {
    "Invalid log level. Expected one of: error, warn, info, debug, trace"@
}

/// Reads a log level: `error`, `warn`, `info`, `debug` or `trace`, in any case.
pub fn parse_log_level(level: &str) -> (r: Result<LogLevel, String>)
    ensures
        match spec_log_level(level@) {
            Some(x) => r == Ok::<LogLevel, String>(x),
            None => r matches Err(m) && m@ == invalid_log_level_message(),
        },
{
    let l = to_lowercase(level);
    let s = l.as_str();
    if crate::text::same_text(s, "error") {
        Ok(LogLevel::Error)
    } else if crate::text::same_text(s, "warn") {
        Ok(LogLevel::Warn)
    } else if crate::text::same_text(s, "info") {
        Ok(LogLevel::Info)
    } else if crate::text::same_text(s, "debug") {
        Ok(LogLevel::Debug)
    } else if crate::text::same_text(s, "trace") {
        Ok(LogLevel::Trace)
    } else {
        Err("Invalid log level. Expected one of: error, warn, info, debug, trace".to_owned())
    }
}

/// A value that must not be blank; `what` names it in the error.
pub fn parse_non_empty(value: String, what: &str) -> (r: Result<String, String>)
    ensures
        if is_blank(value@) {
            r matches Err(m) && m@ == what@ + " cannot be empty"@
        } else {
            r == Ok::<String, String>(value)
        },
{
    if blank(value.as_str()) {
        Err(concat(what, " cannot be empty"))
    } else {
        Ok(value)
    }
}

/// The option keys.
#[derive(Debug, Clone, Copy, PartialEq, Eq, Structural)]
pub enum OptionKey {
    FilePath,
    SubFsms,
    LogLevel,
    Naming,
}

/// The option a key names.
pub open spec fn spec_option_key(key: Seq<char>) -> Option<OptionKey> {
    if key == "file_path"@ {
        Some(OptionKey::FilePath)
    } else if key == "sub_fsms"@ {
        Some(OptionKey::SubFsms)
    } else if key == "log_level"@ {
        Some(OptionKey::LogLevel)
    } else if key == "naming"@ {
        Some(OptionKey::Naming)
    } else {
        None
    }
}

/// The message for an unknown key.
pub open spec fn unknown_key_message() -> Seq<char> {
    "Unknown option key. Expected 'file_path', 'sub_fsms', 'log_level', or 'naming'"@
}

/// Reads an option key.
pub fn option_key(key: &str) -> (r: Result<OptionKey, String>)
    ensures
        match spec_option_key(key@) {
            Some(k) => r == Ok::<OptionKey, String>(k),
            None => r matches Err(m) && m@ == unknown_key_message(),
        },
{
    if crate::text::same_text(key, "file_path") {
        Ok(OptionKey::FilePath)
    } else if crate::text::same_text(key, "sub_fsms") {
        Ok(OptionKey::SubFsms)
    } else if crate::text::same_text(key, "log_level") {
        Ok(OptionKey::LogLevel)
    } else if crate::text::same_text(key, "naming") {
        Ok(OptionKey::Naming)
    } else {
        Err("Unknown option key. Expected 'file_path', 'sub_fsms', 'log_level', or 'naming'".to_owned())
    }
}

/// One `key = value` option.
#[derive(Debug)]
pub enum OptionKeyValue {
    FilePath(String),
    SubFsms(Vec<String>),
    LogLevel(LogLevel),
    Naming(String),
}

impl OptionKeyValue {
    /// The key of the option.
    pub open spec fn key(self) -> OptionKey {
        match self {
            OptionKeyValue::FilePath(_) => OptionKey::FilePath,
            OptionKeyValue::SubFsms(_) => OptionKey::SubFsms,
            OptionKeyValue::LogLevel(_) => OptionKey::LogLevel,
            OptionKeyValue::Naming(_) => OptionKey::Naming,
        }
    }
}

/// How a key is written.
pub open spec fn key_name(k: OptionKey) -> Seq<char> {
    match k {
        OptionKey::FilePath => "file_path"@,
        OptionKey::SubFsms => "sub_fsms"@,
        OptionKey::LogLevel => "log_level"@,
        OptionKey::Naming => "naming"@,
    }
}

/// How a key is written.
fn key_text(k: OptionKey) -> (r: &'static str)
    ensures
        r@ == key_name(k),
{
    match k {
        OptionKey::FilePath => "file_path",
        OptionKey::SubFsms => "sub_fsms",
        OptionKey::LogLevel => "log_level",
        OptionKey::Naming => "naming",
    }
}

/// The first option (from `k` on) whose key an earlier option already set.
pub open spec fn repeated_key(pairs: Seq<OptionKeyValue>, k: int) -> Option<int>
    decreases pairs.len() - k,
{
    if 0 <= k < pairs.len() {
        if exists|j: int| 0 <= j < k && (#[trigger] pairs[j]).key() == pairs[k].key() {
            Some(k)
        } else {
            repeated_key(pairs, k + 1)
        }
    } else {
        None
    }
}

/// The generator's options.
#[derive(Debug)]
pub struct Options {
    pub file_path: String,
    pub sub_fsms: Vec<String>,
    pub naming_path: Option<String>,
    pub log_level: Option<LogLevel>,
}

/// The position of the option with key `key`, if any.
pub open spec fn key_index(pairs: Seq<OptionKeyValue>, key: OptionKey) -> Option<int> {
    if exists|j: int| 0 <= j < pairs.len() && (#[trigger] pairs[j]).key() == key {
        Some(choose|j: int| 0 <= j < pairs.len() && (#[trigger] pairs[j]).key() == key)
    } else {
        None
    }
}

impl Options {
    /// Options with only a file path (the single-string form of the input); the path must not
    /// be blank.
    pub fn try_from_file_path(path: String) -> (r: Result<Options, String>)
        ensures
            if is_blank(path@) {
                r matches Err(m) && m@ == "File path"@ + " cannot be empty"@
            } else {
                r matches Ok(o) && o.file_path@ == path@ && o.sub_fsms@.len() == 0 && o.naming_path is None && o.log_level is None
            },
    {
        match parse_non_empty(path, "File path") {
            Err(m) => Err(m),
            Ok(file_path) => Ok(Options { file_path, sub_fsms: Vec::new(), naming_path: None, log_level: None }),
        }
    }

    /// Options from `key = value` pairs: each key at most once, and `file_path` needed.
    pub fn try_from_key_value_pairs(pairs: Vec<OptionKeyValue>) -> (r: Result<Options, String>)
        ensures
            match repeated_key(pairs@, 0) {
                Some(k) => r matches Err(m) && m@ == "Expected at most one '"@ + key_name(pairs@[k].key()) + "' key in options"@,
                None => match key_index(pairs@, OptionKey::FilePath) {
                    None => r matches Err(m) && m@ == "Expected a 'file_path' key in options"@,
                    Some(f) => r matches Ok(o) && {
                        &&& pairs@[f] matches OptionKeyValue::FilePath(p) && o.file_path == p
                        &&& match key_index(pairs@, OptionKey::SubFsms) {
                            Some(j) => pairs@[j] matches OptionKeyValue::SubFsms(v) && o.sub_fsms == v,
                            None => o.sub_fsms@.len() == 0,
                        }
                        &&& match key_index(pairs@, OptionKey::Naming) {
                            Some(j) => pairs@[j] matches OptionKeyValue::Naming(v) && o.naming_path == Some(v),
                            None => o.naming_path is None,
                        }
                        &&& match key_index(pairs@, OptionKey::LogLevel) {
                            Some(j) => pairs@[j] matches OptionKeyValue::LogLevel(v) && o.log_level == Some(v),
                            None => o.log_level is None,
                        }
                    },
                },
            },
    {
        let ghost ps = pairs@;
        let mut k: usize = 0;
        while k < pairs.len()
            invariant
                ps == pairs@,
                k <= ps.len(),
                repeated_key(ps, 0) == repeated_key(ps, k as int),
            decreases ps.len() - k,
        {
            let mut j: usize = 0;
            while j < k
                invariant
                    ps == pairs@,
                    j <= k,
                    k < ps.len(),
                    repeated_key(ps, 0) == repeated_key(ps, k as int),
                    forall|q: int| 0 <= q < j ==> (#[trigger] ps[q]).key() != ps[k as int].key(),
                decreases k - j,
            {
                if same_key(&pairs[j], &pairs[k]) {
                    proof { assert(ps[j as int].key() == ps[k as int].key()); }
                    let name = key_text(key_of(&pairs[k]));
                    let mut m = concat("Expected at most one '", name);
                    m.append("' key in options");
                    return Err(m);
                }
                j = j + 1;
            }
            k = k + 1;
        }
        proof {
            assert forall|a: int, b: int| 0 <= a < b < ps.len() implies #[trigger] ps[a].key() != #[trigger] ps[b].key() by {
                lemma_no_repeat(ps, 0, b);
            }
        }
        let mut file_path: Option<String> = None;
        let mut sub_fsms: Option<Vec<String>> = None;
        let mut naming_path: Option<String> = None;
        let mut log_level: Option<LogLevel> = None;
        let mut pairs = pairs;
        while pairs.len() > 0
            invariant
                pairs@ == ps.take(pairs@.len() as int),
                pairs@.len() <= ps.len(),
                forall|a: int, b: int| 0 <= a < b < ps.len() ==> #[trigger] ps[a].key() != #[trigger] ps[b].key(),
                match file_path {
                    Some(p) => key_index(ps, OptionKey::FilePath) matches Some(f) && f >= pairs@.len() && ps[f] == OptionKeyValue::FilePath(p),
                    None => forall|j: int| pairs@.len() <= j < ps.len() ==> (#[trigger] ps[j]).key() != OptionKey::FilePath,
                },
                match sub_fsms {
                    Some(v) => key_index(ps, OptionKey::SubFsms) matches Some(f) && f >= pairs@.len() && ps[f] == OptionKeyValue::SubFsms(v),
                    None => forall|j: int| pairs@.len() <= j < ps.len() ==> (#[trigger] ps[j]).key() != OptionKey::SubFsms,
                },
                match naming_path {
                    Some(v) => key_index(ps, OptionKey::Naming) matches Some(f) && f >= pairs@.len() && ps[f] == OptionKeyValue::Naming(v),
                    None => forall|j: int| pairs@.len() <= j < ps.len() ==> (#[trigger] ps[j]).key() != OptionKey::Naming,
                },
                match log_level {
                    Some(v) => key_index(ps, OptionKey::LogLevel) matches Some(f) && f >= pairs@.len() && ps[f] == OptionKeyValue::LogLevel(v),
                    None => forall|j: int| pairs@.len() <= j < ps.len() ==> (#[trigger] ps[j]).key() != OptionKey::LogLevel,
                },
            decreases pairs@.len(),
        {
            let ghost at = pairs@.len() - 1;
            let pair = pairs.pop().unwrap();
            proof {
                assert(pair == ps[at]);
                assert(pairs@ =~= ps.take(at));
            }
            match pair {
                OptionKeyValue::FilePath(p) => {
                    proof { assert(key_index(ps, OptionKey::FilePath) == Some(at)); }
                    file_path = Some(p);
                },
                OptionKeyValue::SubFsms(v) => {
                    proof { assert(key_index(ps, OptionKey::SubFsms) == Some(at)); }
                    sub_fsms = Some(v);
                },
                OptionKeyValue::Naming(v) => {
                    proof { assert(key_index(ps, OptionKey::Naming) == Some(at)); }
                    naming_path = Some(v);
                },
                OptionKeyValue::LogLevel(v) => {
                    proof { assert(key_index(ps, OptionKey::LogLevel) == Some(at)); }
                    log_level = Some(v);
                },
            }
        }
        match file_path {
            None => Err("Expected a 'file_path' key in options".to_owned()),
            Some(file_path) => {
                let sub_fsms = match sub_fsms {
                    Some(v) => v,
                    None => Vec::new(),
                };
                Ok(Options { file_path, sub_fsms, naming_path, log_level })
            },
        }
    }
}

/// With no repeated key from `k` on, no key repeats an earlier one at `b >= k`.
proof fn lemma_no_repeat(ps: Seq<OptionKeyValue>, k: int, b: int)
    requires
        0 <= k <= b < ps.len(),
        repeated_key(ps, k) is None,
    ensures
        forall|a: int| 0 <= a < b ==> #[trigger] ps[a].key() != ps[b].key(),
    decreases b - k,
{
    if k < b {
        lemma_no_repeat(ps, k + 1, b);
    }
}

/// The key of an option.
fn key_of(p: &OptionKeyValue) -> (r: OptionKey)
    ensures
        r == p.key(),
{
    match p {
        OptionKeyValue::FilePath(_) => OptionKey::FilePath,
        OptionKeyValue::SubFsms(_) => OptionKey::SubFsms,
        OptionKeyValue::LogLevel(_) => OptionKey::LogLevel,
        OptionKeyValue::Naming(_) => OptionKey::Naming,
    }
}

/// Whether two options have the same key.
fn same_key(a: &OptionKeyValue, b: &OptionKeyValue) -> (r: bool)
    ensures
        r == (a.key() == b.key()),
{
    key_of(a) == key_of(b)
}

/// What code generation needs besides the FSM: the naming template and the log level.
#[derive(Debug)]
pub struct GenerationOptions<'a> {
    pub log_level: Option<LogLevel>,
    pub naming: NamingTemplate<'a>,
}

} // verus!
