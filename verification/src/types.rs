//! Identifiers, common value types and the error taxonomy.

use vstd::prelude::*;
use vstd::string::*;

verus! {

/// Number of characters in a full identifier.
pub const UID_LENGTH: usize = 32;

/// Number of characters in the short, user-facing form of an identifier.
pub const SHORT_UID_LENGTH: usize = 7;

/// Priority of tasks.  Low integers express high priority: priority `1` is
/// the first position among the siblings.
pub type Priority = u64;

/// Possible formatting for tree listings.
pub enum ListFormat {
    /// only display tree names
    Short,
    /// display tree names and the next task of each tree
    Long,
}

/// One candidate of an ambiguous prefix lookup: a full id and the name of
/// the record that carries it (empty for records without a name).
#[derive(Debug)]
pub struct Candidate {
    pub id: String,
    pub name: String,
}

/// The failures that the engines report.  All variants but
/// `InvariantViolation` are recoverable user errors; an invariant violation
/// signals a logic or storage bug and aborts the command.
#[derive(Debug)]
pub enum ForestError {
    /// A tree, task, note or frame could not be resolved.
    NotFound,
    /// A short id prefix matched two or more records; every match is listed.
    Ambiguous { candidates: Vec<Candidate> },
    /// A date/time string or a name was malformed.
    InvalidFormat,
    /// A tree of the requested name already exists.
    AlreadyExists,
    /// No tree exists yet, so no current tree can be determined.
    EmptyForest,
    /// A stop was requested while no recording was open.
    NothingToStop,
    /// A mandatory update matched no row or a generated id collided.
    InvariantViolation,
}

/// A character of the identifier alphabet: a decimal digit or a lowercase
/// hexadecimal letter.
pub open spec fn is_lower_hex_char(c: char) -> bool {
    ('0' <= c && c <= '9') || ('a' <= c && c <= 'f')
}

/// Every character of the sequence belongs to the identifier alphabet.
pub open spec fn lower_hex_seq(s: Seq<char>) -> bool {
    forall|i: int| 0 <= i < s.len() ==> is_lower_hex_char(#[trigger] s[i])
}

/// A well-formed full identifier: exactly `UID_LENGTH` characters of the
/// identifier alphabet.
pub open spec fn valid_uid_seq(s: Seq<char>) -> bool {
    s.len() == UID_LENGTH && lower_hex_seq(s)
}

/// Identifier-alphabet characters are ASCII.
pub proof fn lemma_lower_hex_is_ascii(s: Seq<char>)
    requires
        lower_hex_seq(s),
    ensures
        vstd::utf8::is_ascii_chars(s),
{
    assert forall|i: int| 0 <= i < s.len() implies '\0' <= #[trigger] s[i] <= '\u{7f}' by {
        assert(is_lower_hex_char(s[i]));
    }
}

/// Unique identifier: a fixed-length random token over a 16-symbol
/// lowercase-hexadecimal alphabet.
pub struct Uid {
    id: String,
}

impl View for Uid {
    type V = Seq<char>;

    closed spec fn view(&self) -> Seq<char> {
        self.id@
    }
}

impl Uid {
    /// The identifier is exactly `UID_LENGTH` characters of the alphabet.
    pub open spec fn wf(&self) -> bool {
        valid_uid_seq(self@)
    }

    /// Relies on `nanoid::format` with `nanoid::rngs::default`: with a
    /// power-of-two alphabet it returns exactly `size` characters, each drawn
    /// from the given alphabet.
    #[verifier::external_body]
    fn fresh_uid_string() -> (r: String)
        ensures
            valid_uid_seq(r@),
    {
        let alphabet: [char; 16] =
            ['1', '2', '3', '4', '5', '6', '7', '8', '9', '0', 'a', 'b', 'c', 'd', 'e', 'f'];
        nanoid::format(nanoid::rngs::default, &alphabet, UID_LENGTH)
    }

    /// Constructs a new unique identifier.
    pub fn new() -> (r: Uid)
        ensures
            r.wf(),
    {
        Uid { id: Self::fresh_uid_string() }
    }

    /// Returns the first characters of the identifier.
    pub fn short(&self) -> (r: &str)
        requires
            self.wf(),
        ensures
            r@ == self@.subrange(0, SHORT_UID_LENGTH as int),
    {
        proof {
            lemma_lower_hex_is_ascii(self@);
        }
        self.id.as_str().substring_ascii(0, SHORT_UID_LENGTH)
    }

    /// Returns the full identifier as a string slice.
    pub fn as_str(&self) -> (r: &str)
        ensures
            r@ == self@,
    {
        self.id.as_str()
    }

    /// Returns the full identifier as a string.
    pub fn as_string(&self) -> (r: String)
        ensures
            r@ == self@,
    {
        self.id.clone()
    }

    /// Tries to construct an identifier from a string.  Fails if the length
    /// is not the length of an identifier or if a character is outside the
    /// identifier alphabet.
    pub fn try_from(value: String) -> (r: Result<Uid, ForestError>)
        ensures
            r is Ok <==> valid_uid_seq(value@),
            r matches Ok(u) ==> u@ == value@ && u.wf(),
            r matches Err(e) ==> e is InvalidFormat,
    {
        let len = value.as_str().unicode_len();
        if len != UID_LENGTH {
            return Err(ForestError::InvalidFormat);
        }
        if str_is_lower_hex(value.as_str()) {
            Ok(Uid { id: value })
        } else {
            Err(ForestError::InvalidFormat)
        }
    }

    /// Decides whether the identifier is well formed: data read from an
    /// outside store must be checked, not assumed.
    pub fn check_wf(&self) -> (r: bool)
        ensures
            r == self.wf(),
    {
        let len = self.id.as_str().unicode_len();
        len == UID_LENGTH && str_is_lower_hex(self.id.as_str())
    }

    /// Copies the identifier.
    pub fn duplicate(&self) -> (r: Uid)
        ensures
            r@ == self@,
    {
        Uid { id: self.id.clone() }
    }
}

/// Whether every character of the string belongs to the identifier alphabet.
pub fn str_is_lower_hex(s: &str) -> (r: bool)
    ensures
        r == lower_hex_seq(s@),
{
    let len = s.unicode_len();
    let mut i: usize = 0;
    while i < len
        invariant
            0 <= i <= len,
            len == s@.len(),
            forall|k: int| 0 <= k < i ==> is_lower_hex_char(#[trigger] s@[k]),
        decreases len - i,
    {
        let c = s.get_char(i);
        if !(('0' <= c && c <= '9') || ('a' <= c && c <= 'f')) {
            return false;
        }
        i += 1;
    }
    true
}

/// Parses a tree name.
pub fn tree_name_parser(tree_name: &str) -> (r: Result<String, String>)
    ensures
        r matches Ok(s) && s@ == tree_name@,
{
    Ok(tree_name.to_owned())
}

/// Parses a task name.
pub fn task_name_parser(task_name: &str) -> (r: Result<String, String>)
    ensures
        r matches Ok(s) && s@ == task_name@,
{
    Ok(task_name.to_owned())
}

/// Parses an identifier prefix: accepted exactly when every character
/// belongs to the identifier alphabet.
pub fn uid_parser(uid: &str) -> (r: Result<String, String>)
    ensures
        r is Ok <==> lower_hex_seq(uid@),
        r matches Ok(s) ==> s@ == uid@,
{
    if str_is_lower_hex(uid) {
        Ok(uid.to_owned())
    } else {
        let mut msg = String::from_str("'");
        msg.append(uid);
        msg.append("' is not a valid Uid. Uids can only contain lowercase hexadecimal characters (0-9a-f)");
        Err(msg)
    }
}

} // verus!
