//! Include targets and the resolvers that fetch their contents.
use vstd::prelude::*;

use vstd::string::StringExecFns;

verus! {

/// What an include directive points at.
#[derive(Debug, PartialEq, Eq, Clone)]
pub enum IncludeTarget {
    FilePath(String),
    Uri(String),
}

impl IncludeTarget {
    pub fn is_path(&self) -> (r: bool)
        ensures
            r == (self is FilePath),
    {
        match self {
            IncludeTarget::FilePath(_) => true,
            IncludeTarget::Uri(_) => false,
        }
    }

    pub fn is_uri(&self) -> (r: bool)
        ensures
            r == (self is Uri),
    {
        match self {
            IncludeTarget::FilePath(_) => false,
            IncludeTarget::Uri(_) => true,
        }
    }

    /// The path or URI, as text.
    pub fn path(&self) -> (r: String)
        ensures
            match self {
                IncludeTarget::FilePath(p) => r@ == p@,
                IncludeTarget::Uri(u) => r@ == u@,
            },
    {
        match self {
            IncludeTarget::FilePath(p) => p.clone(),
            IncludeTarget::Uri(u) => u.clone(),
        }
    }
}

/// Why a resolver could not supply an include's contents.
#[derive(Debug, Clone, PartialEq, Eq)]
pub enum ResolveError {
    NotFound,
    Io(String),
    UriReadNotSupported,
    UriRead(String),
    BaseDirRequired,
    CaseMismatch(Option<String>),
}

/// The text a resolve error reads as.
pub open spec fn resolve_error_text(e: ResolveError) -> Seq<char> {
    match e {
        ResolveError::NotFound => "File not found"@,
        ResolveError::Io(m) => "I/O error: "@ + m@,
        ResolveError::UriReadNotSupported => "URI read not supported"@,
        ResolveError::UriRead(m) => "Error reading URI: "@ + m@,
        ResolveError::CaseMismatch(Some(p)) => "Case mismatch in file path. Maybe you meant to include `"@ + p@
            + "`?"@,
        ResolveError::CaseMismatch(None) => "Case mismatch in file path"@,
        ResolveError::BaseDirRequired => "Include resolvers must supply a base_dir for relative includes from primary document"@,
    }
}

impl ResolveError {
    /// A copy of this error.
    pub fn duplicate(&self) -> (r: ResolveError)
        ensures
            r == *self,
    {
        match self {
            ResolveError::NotFound => ResolveError::NotFound,
            ResolveError::Io(e) => ResolveError::Io(e.clone()),
            ResolveError::UriReadNotSupported => ResolveError::UriReadNotSupported,
            ResolveError::UriRead(e) => ResolveError::UriRead(e.clone()),
            ResolveError::BaseDirRequired => ResolveError::BaseDirRequired,
            ResolveError::CaseMismatch(Some(p)) => ResolveError::CaseMismatch(Some(p.clone())),
            ResolveError::CaseMismatch(None) => ResolveError::CaseMismatch(None),
        }
    }

    /// The error's message.
    pub fn message(&self) -> (r: String)
        ensures
            r@ == resolve_error_text(*self),
    {
        match self {
            ResolveError::NotFound => String::from_str("File not found"),
            ResolveError::Io(e) => String::from_str("I/O error: ").concat(e.as_str()),
            ResolveError::UriReadNotSupported => String::from_str("URI read not supported"),
            ResolveError::UriRead(e) => String::from_str("Error reading URI: ").concat(e.as_str()),
            ResolveError::CaseMismatch(Some(path)) => String::from_str(
                "Case mismatch in file path. Maybe you meant to include `",
            ).concat(path.as_str()).concat("`?"),
            ResolveError::CaseMismatch(None) => String::from_str("Case mismatch in file path"),
            ResolveError::BaseDirRequired => String::from_str(
                "Include resolvers must supply a base_dir for relative includes from primary document",
            ),
        }
    }
}

/// A buffer a resolver writes an include's contents into.
pub trait IncludeBuffer {
    /// Makes the buffer `len` bytes long: what it holds up to `len` stays,
    /// and zero bytes fill the rest.
    fn initialize(&mut self, len: usize);
}

/// `s` cut or padded with zero bytes to length `len`.
pub open spec fn resized(s: Seq<u8>, len: nat) -> Seq<u8> {
    Seq::new(len, |i: int| if i < s.len() { s[i] } else { 0u8 })
}

impl IncludeBuffer for Vec<u8> {
    fn initialize(&mut self, len: usize)
        ensures
            final(self)@ == resized(old(self)@, len as nat),
    {
        self.truncate(len);
        while self.len() < len
            invariant
                self@.len() <= len,
                self@.len() < len ==> self@.len() >= old(self)@.len(),
                forall|i: int| 0 <= i < self@.len() ==> #[trigger] self@[i] == resized(old(self)@, len as nat)[i],
            decreases len - self@.len(),
        {
            self.push(0u8);
        }
        assert(self@ =~= resized(old(self)@, len as nat));
    }
}

/// An include target as the specifications see it: whether it is a URI,
/// and its path or URI text.
pub open spec fn target_view(t: IncludeTarget) -> (bool, Seq<char>) {
    match t {
        IncludeTarget::FilePath(p) => (false, p@),
        IncludeTarget::Uri(u) => (true, u@),
    }
}

pub open spec fn targets_view(ts: Seq<IncludeTarget>) -> Seq<(bool, Seq<char>)> {
    ts.map_values(|t: IncludeTarget| target_view(t))
}

/// Supplies the contents of include targets; implemented by users of the
/// parser (reading files, fetching URIs, or serving fixed content).
pub trait IncludeResolver {
    /// The targets asked for so far, in order. An implementation keeps
    /// this record (as `ConstResolver` does); the empty record given by
    /// default does not meet `resolve`'s contract.
    open spec fn requested(&self) -> Seq<(bool, Seq<char>)> {
        Seq::empty()
    }

    /// Writes the target's contents into `buffer`, returning their length;
    /// the target joins the ones asked for.
    fn resolve(&mut self, target: IncludeTarget, buffer: &mut Vec<u8>) -> (r: Result<usize, ResolveError>)
        ensures
            final(self).requested() == old(self).requested().push(target_view(target)),
    ;

    /// The directory relative includes of the primary document resolve
    /// against; by default there is none.
    fn get_base_dir(&self) -> (r: Option<String>)
        default_ensures
            r is None,
    {
        None
    }
}

fn record(asked: &mut Vec<IncludeTarget>, target: IncludeTarget)
    ensures
        targets_view(final(asked)@) == targets_view(old(asked)@).push(target_view(target)),
{
    let ghost t = target;
    asked.push(target);
    assert(targets_view(asked@) =~= targets_view(old(asked)@).push(target_view(t)));
}

/// A resolver that supplies the same bytes for every target, keeping the
/// targets it was asked for.
#[derive(Clone)]
pub struct ConstResolver {
    pub bytes: Vec<u8>,
    pub asked: Vec<IncludeTarget>,
}

impl ConstResolver {
    pub fn new(bytes: Vec<u8>) -> (r: ConstResolver)
        ensures
            r.bytes@ == bytes@,
            r.asked@.len() == 0,
    {
        ConstResolver { bytes, asked: Vec::new() }
    }
}

impl IncludeResolver for ConstResolver {
    open spec fn requested(&self) -> Seq<(bool, Seq<char>)> {
        targets_view(self.asked@)
    }

    fn resolve(&mut self, target: IncludeTarget, buffer: &mut Vec<u8>) -> (r: Result<usize, ResolveError>)
        ensures
            final(buffer)@ == old(self).bytes@,
            final(self).bytes@ == old(self).bytes@,
            r == Ok::<usize, ResolveError>(old(self).bytes@.len() as usize),
    {
        let mut out: Vec<u8> = Vec::new();
        crate::bytes::extend_all(&mut out, self.bytes.as_slice());
        *buffer = out;
        record(&mut self.asked, target);
        Ok(self.bytes.len())
    }

    fn get_base_dir(&self) -> (r: Option<String>)
        ensures
            r matches Some(s) && s@ == "/"@,
    {
        Some(String::from_str("/"))
    }
}

/// A resolver that fails every target with the same error, keeping the
/// targets it was asked for.
#[derive(Clone)]
pub struct ErrorResolver {
    pub error: ResolveError,
    pub asked: Vec<IncludeTarget>,
}

impl ErrorResolver {
    pub fn new(error: ResolveError) -> (r: ErrorResolver)
        ensures
            r.error == error,
            r.asked@.len() == 0,
    {
        ErrorResolver { error, asked: Vec::new() }
    }
}

impl IncludeResolver for ErrorResolver {
    open spec fn requested(&self) -> Seq<(bool, Seq<char>)> {
        targets_view(self.asked@)
    }

    fn resolve(&mut self, target: IncludeTarget, buffer: &mut Vec<u8>) -> (r: Result<usize, ResolveError>)
        ensures
            r == Err::<usize, ResolveError>(old(self).error),
            final(self).error == old(self).error,
            final(buffer)@ == old(buffer)@,
    {
        record(&mut self.asked, target);
        Err(self.error.duplicate())
    }

    fn get_base_dir(&self) -> (r: Option<String>)
        ensures
            r matches Some(s) && s@ == "/"@,
    {
        Some(String::from_str("/"))
    }
}

} // verus!
