//! Namespaced identifiers.
//!
//! An [`Identifier`] names a thing by a namespace and a path, written
//! `namespace:path`.  Both parts are restricted to a small character set, so
//! an identifier can always be printed and re-parsed unambiguously.

use vstd::prelude::*;

verus! {

/// Characters allowed in a namespace: `[a-z0-9._-]`.
pub open spec fn is_namespace_char(c: char) -> bool {
    c == '_' || c == '-' || ('a' <= c && c <= 'z') || ('0' <= c && c <= '9') || c == '.'
}

/// Characters allowed in a path: `[a-z0-9/._-]`.
pub open spec fn is_path_char(c: char) -> bool {
    is_namespace_char(c) || c == '/'
}

/// All characters of `s` are valid namespace characters.
pub open spec fn namespace_chars_valid(s: Seq<char>) -> bool {
    forall|i: int| 0 <= i < s.len() ==> is_namespace_char(#[trigger] s[i])
}

/// All characters of `s` are valid path characters.
pub open spec fn path_chars_valid(s: Seq<char>) -> bool {
    forall|i: int| 0 <= i < s.len() ==> is_path_char(#[trigger] s[i])
}

/// An identifier used to identify things, containing a namespace and a path.
#[derive(Debug, Hash)]
pub struct Identifier {
    namespace: String,
    path: String,
}

/// Error variants of [`Identifier`].
#[derive(Debug, PartialEq, Eq)]
pub enum Error {
    /// Invalid characters in either namespace or path.
    InvalidChars { namespace: String, path: String },
}

impl Identifier {
    /// The characters of the namespace.
    pub closed spec fn namespace_chars(&self) -> Seq<char> {
        self.namespace@
    }

    /// The characters of the path.
    pub closed spec fn path_chars(&self) -> Seq<char> {
        self.path@
    }

    /// Both parts hold only their allowed characters.
    pub open spec fn wf(&self) -> bool {
        namespace_chars_valid(self.namespace_chars()) && path_chars_valid(self.path_chars())
    }

    /// Creates a new identifier.
    ///
    /// Callers must pass a namespace and path made of their allowed
    /// characters; [`Identifier::try_new`] reports bad input instead.
    pub fn new(namespace: &str, path: String) -> (r: Self)
        requires
            namespace_chars_valid(namespace@),
            path_chars_valid(path@),
        ensures
            r.namespace_chars() == namespace@,
            r.path_chars() == path@,
    {
        match Self::try_new(namespace, path) {
            Ok(id) => id,
            Err(_) => unreached(),
        }
    }

    /// Creates a new identifier, rejecting invalid characters.
    pub fn try_new(namespace: &str, path: String) -> (r: Result<Self, Error>)
        ensures
            match r {
                Ok(id) => namespace_chars_valid(namespace@) && path_chars_valid(path@)
                    && id.namespace_chars() == namespace@ && id.path_chars() == path@,
                Err(Error::InvalidChars { namespace: n, path: p }) => !(namespace_chars_valid(
                    namespace@,
                ) && path_chars_valid(path@)) && n@ == namespace@ && p@ == path@,
            },
    {
        if Self::is_path_valid(path.as_str()) && Self::is_namespace_valid(namespace) {
            Ok(Identifier { namespace: namespace.to_owned(), path })
        } else {
            Err(Error::InvalidChars { namespace: namespace.to_owned(), path })
        }
    }

    /// Parse a string identifier (ex. `minecraft:air`).
    ///
    /// Callers must pass text that parses; [`Identifier::try_parse`] reports
    /// bad input instead.
    pub fn parse(id: &str) -> (r: Self)
        requires
            parse_spec(id@) is Some,
        ensures
            Some(r.namespace_chars()) == parse_namespace_spec(id@),
            Some(r.path_chars()) == parse_path_spec(id@),
    {
        match Self::try_parse(id) {
            Ok(r) => r,
            Err(_) => unreached(),
        }
    }

    /// Parse a string identifier (ex. `minecraft:air`).
    pub fn try_parse(id: &str) -> (r: Result<Self, Error>)
        ensures
            match r {
                Ok(ident) => parse_spec(id@) == Some((
                    ident.namespace_chars(),
                    ident.path_chars(),
                )),
                Err(_) => parse_spec(id@) is None,
            },
    {
        Self::split(id, ':')
    }

    /// Splits `id` into a namespace and a path at the first occurrence of
    /// `delimiter`, excluding the delimiter character, or uses `unknown` for
    /// the namespace when the delimiter does not exist.
    fn split(id: &str, delimiter: char) -> (r: Result<Self, Error>)
        ensures
            match r {
                Ok(ident) => split_spec(id@, delimiter) == Some((
                    ident.namespace_chars(),
                    ident.path_chars(),
                )),
                Err(_) => split_spec(id@, delimiter) is None,
            },
    {
        let len = id.unicode_len();
        let mut i: usize = 0;
        while i < len
            invariant
                0 <= i <= len,
                len == id@.len(),
                forall|j: int| 0 <= j < i ==> id@[j] != delimiter,
            decreases len - i,
        {
            if id.get_char(i) == delimiter {
                proof {
                    assert(first_index(id@, delimiter) == i as int) by {
                        lemma_first_index_is(id@, delimiter, i as int);
                    }
                }
                let ns = id.substring_char(0, i);
                let path = id.substring_char(i + 1, len);
                return Self::try_new(ns, path.to_owned());
            }
            i += 1;
        }
        proof {
            lemma_first_index_bounds(id@, delimiter);
        }
        Self::try_new("unknown", id.to_owned())
    }

    /// Whether `namespace` can be used as an identifier's namespace.
    pub fn is_namespace_valid(namespace: &str) -> (r: bool)
        ensures
            r == namespace_chars_valid(namespace@),
    {
        let len = namespace.unicode_len();
        let mut i: usize = 0;
        while i < len
            invariant
                0 <= i <= len,
                len == namespace@.len(),
                forall|j: int| 0 <= j < i ==> is_namespace_char(#[trigger] namespace@[j]),
            decreases len - i,
        {
            let c = namespace.get_char(i);
            if !(c == '_' || c == '-' || ('a' <= c && c <= 'z') || ('0' <= c && c <= '9') || c
                == '.') {
                return false;
            }
            i += 1;
        }
        true
    }

    /// Whether `path` can be used as an identifier's path.
    pub fn is_path_valid(path: &str) -> (r: bool)
        ensures
            r == path_chars_valid(path@),
    {
        let len = path.unicode_len();
        let mut i: usize = 0;
        while i < len
            invariant
                0 <= i <= len,
                len == path@.len(),
                forall|j: int| 0 <= j < i ==> is_path_char(#[trigger] path@[j]),
            decreases len - i,
        {
            let c = path.get_char(i);
            if !(c == '_' || c == '-' || ('a' <= c && c <= 'z') || ('0' <= c && c <= '9') || c
                == '.' || c == '/') {
                return false;
            }
            i += 1;
        }
        true
    }

    /// Gets the namespace of this id.
    pub fn namespace(&self) -> (r: &str)
        ensures
            r@ == self.namespace_chars(),
    {
        self.namespace.as_str()
    }

    /// Gets the path of this id.
    pub fn path(&self) -> (r: &str)
        ensures
            r@ == self.path_chars(),
    {
        self.path.as_str()
    }

    /// Stringify this identifier in the `namespace:path` format.
    pub fn to_text(&self) -> (r: String)
        ensures
            r@ == self@,
    {
        let mut s = self.namespace.clone();
        s.append(":");
        s.append(self.path.as_str());
        proof {
            reveal_strlit(":");
            assert(s@ =~= self@);
        }
        s
    }
}

impl View for Identifier {
    type V = Seq<char>;

    /// An identifier reads as `namespace:path`.
    closed spec fn view(&self) -> Seq<char> {
        self.namespace@ + seq![':'] + self.path@
    }
}

impl Clone for Identifier {
    fn clone(&self) -> (r: Self)
        ensures
            r == *self,
    {
        Identifier { namespace: self.namespace.clone(), path: self.path.clone() }
    }
}

impl PartialEq for Identifier {
    fn eq(&self, other: &Self) -> (r: bool)
    {
        self.namespace.eq(&other.namespace) && self.path.eq(&other.path)
    }
}

impl vstd::std_specs::cmp::PartialEqSpecImpl for Identifier {
    open spec fn obeys_eq_spec() -> bool {
        true
    }

    open spec fn eq_spec(&self, other: &Self) -> bool {
        self.namespace_chars() == other.namespace_chars() && self.path_chars()
            == other.path_chars()
    }
}

impl Eq for Identifier {

}

/// The index of the first occurrence of `c` in `s`, or `s.len()` if absent.
pub open spec fn first_index(s: Seq<char>, c: char) -> int
    decreases s.len(),
{
    if s.len() == 0 {
        0
    } else if s[0] == c {
        0
    } else {
        1 + first_index(s.drop_first(), c)
    }
}

/// Where the first occurrence sits: within the sequence and on `c`, with
/// nothing equal to `c` before it.
pub proof fn lemma_first_index_bounds(s: Seq<char>, c: char)
    ensures
        0 <= first_index(s, c) <= s.len(),
        first_index(s, c) < s.len() ==> s[first_index(s, c)] == c,
        forall|j: int| 0 <= j < first_index(s, c) ==> s[j] != c,
    decreases s.len(),
{
    if s.len() != 0 && s[0] != c {
        lemma_first_index_bounds(s.drop_first(), c);
        assert forall|j: int| 0 <= j < first_index(s, c) implies s[j] != c by {
            if j > 0 {
                assert(s.drop_first()[j - 1] == s[j]);
            }
        }
    }
}

/// `i` is the first occurrence of `c` exactly when `s[i] == c` and no
/// earlier character equals `c`.
proof fn lemma_first_index_is(s: Seq<char>, c: char, i: int)
    requires
        0 <= i < s.len(),
        s[i] == c,
        forall|j: int| 0 <= j < i ==> s[j] != c,
    ensures
        first_index(s, c) == i,
    decreases s.len(),
{
    if i > 0 {
        lemma_first_index_is(s.drop_first(), c, i - 1);
    }
}

/// How [`Identifier::split`] divides `s` at the first `delim`: the part
/// before it and the part after it, or a namespace of `unknown` when the
/// delimiter is absent; `None` when a part holds an invalid character.
pub open spec fn split_spec(s: Seq<char>, delim: char) -> Option<(Seq<char>, Seq<char>)> {
    let i = first_index(s, delim);
    let ns = if i < s.len() {
        s.subrange(0, i)
    } else {
        "unknown"@
    };
    let path = if i < s.len() {
        s.subrange(i + 1, s.len() as int)
    } else {
        s
    };
    if namespace_chars_valid(ns) && path_chars_valid(path) {
        Some((ns, path))
    } else {
        None
    }
}

/// What [`Identifier::try_parse`] yields: the namespace and path character
/// sequences, or `None` for input that is rejected.
pub open spec fn parse_spec(s: Seq<char>) -> Option<(Seq<char>, Seq<char>)> {
    split_spec(s, ':')
}

/// The namespace [`Identifier::try_parse`] yields.
pub open spec fn parse_namespace_spec(s: Seq<char>) -> Option<Seq<char>> {
    match parse_spec(s) {
        Some(p) => Some(p.0),
        None => None,
    }
}

/// The path [`Identifier::try_parse`] yields.
pub open spec fn parse_path_spec(s: Seq<char>) -> Option<Seq<char>> {
    match parse_spec(s) {
        Some(p) => Some(p.1),
        None => None,
    }
}

} // verus!
