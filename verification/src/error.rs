//! The errors that loading, parsing and validating a configuration report.

use vstd::prelude::*;

use crate::schema::ValueType;
use crate::text::{decimal, decimal_text};

verus! {

/// `std::io::Error`, which the errors of reading a configuration carry.
#[verifier::external_type_specification]
#[verifier::external_body]
pub struct ExIoError(std::io::Error);

/// An error found in a sysctl configuration line.
#[derive(Debug, Clone, PartialEq, Eq)]
pub struct ParseError {
    pub(crate) line: usize,
    pub(crate) content: String,
}

impl View for ParseError {
    /// The line number and the content of the invalid line.
    type V = (int, Seq<char>);

    closed spec fn view(&self) -> (int, Seq<char>) {
        (self.line as int, self.content@)
    }
}

impl ParseError {
    /// An error for the line numbered `line` that reads `content`.
    pub(crate) fn new(line: usize, content: String) -> (r: ParseError)
        ensures
            r@ == (line as int, content@),
    {
        ParseError { line, content }
    }

    /// One-based line number on which parsing failed.
    pub fn line(&self) -> (r: usize)
        ensures
            r == self@.0,
    {
        self.line
    }

    /// The invalid line, without its line terminator.
    pub fn content(&self) -> (r: &str)
        ensures
            r@ == self@.1,
    {
        self.content.as_str()
    }
}

/// An error returned while reading and parsing a configuration.
#[derive(Debug)]
pub enum LoadError {
    Io(std::io::Error),
    Parse(ParseError),
}

impl From<std::io::Error> for LoadError {
    fn from(error: std::io::Error) -> (r: Self) {
        LoadError::Io(error)
    }
}

impl vstd::std_specs::convert::FromSpecImpl<std::io::Error> for LoadError {
    open spec fn obeys_from_spec() -> bool {
        true
    }

    open spec fn from_spec(v: std::io::Error) -> LoadError {
        LoadError::Io(v)
    }
}

impl From<ParseError> for LoadError {
    fn from(error: ParseError) -> (r: Self) {
        LoadError::Parse(error)
    }
}

impl vstd::std_specs::convert::FromSpecImpl<ParseError> for LoadError {
    open spec fn obeys_from_spec() -> bool {
        true
    }

    open spec fn from_spec(v: ParseError) -> LoadError {
        LoadError::Parse(v)
    }
}

/// An invalid line in a schema file.
#[derive(Debug, Clone, PartialEq, Eq)]
pub struct SchemaParseError {
    pub(crate) line: usize,
    pub(crate) content: String,
}

impl View for SchemaParseError {
    /// The line number and the content of the invalid line.
    type V = (int, Seq<char>);

    closed spec fn view(&self) -> (int, Seq<char>) {
        (self.line as int, self.content@)
    }
}

impl SchemaParseError {
    /// An error for the schema line numbered `line` that reads `content`.
    pub(crate) fn new(line: usize, content: String) -> (r: SchemaParseError)
        ensures
            r@ == (line as int, content@),
    {
        SchemaParseError { line, content }
    }

    /// One-based line number of the invalid schema line.
    pub fn line(&self) -> (r: usize)
        ensures
            r == self@.0,
    {
        self.line
    }

    /// The invalid schema line, trimmed.
    pub fn content(&self) -> (r: &str)
        ensures
            r@ == self@.1,
    {
        self.content.as_str()
    }
}

/// A setting that does not conform to the loaded schema.
#[derive(Debug, Clone, PartialEq, Eq)]
pub enum ValidationError {
    UnknownKey { line: usize, key: String },
    InvalidValue { line: usize, key: String, value: String, expected: ValueType },
}

/// What can go wrong when a configuration is read against a schema, by line
/// number.
pub enum Fault {
    /// A malformed configuration line and its content.
    Syntax(int, Seq<char>),
    /// A setting whose key the schema does not declare.
    UnknownKey(int, Seq<char>),
    /// A setting's key and value, where the value does not read as the
    /// declared type.
    InvalidValue(int, Seq<char>, Seq<char>, ValueType),
    /// A malformed schema line and its content.
    SchemaSyntax(int, Seq<char>),
}

/// The error `e` reports the fault `f`.
pub open spec fn reports(e: ValidatedLoadError, f: Fault) -> bool {
    match (e, f) {
        (ValidatedLoadError::Config(LoadError::Parse(p)), Fault::Syntax(n, c)) => p@ == (n, c),
        (
            ValidatedLoadError::Validation(ValidationError::UnknownKey { line, key }),
            Fault::UnknownKey(n, k),
        ) => line == n && key@ == k,
        (
            ValidatedLoadError::Validation(
                ValidationError::InvalidValue { line, key, value, expected },
            ),
            Fault::InvalidValue(n, k, v, t),
        ) => line == n && key@ == k && value@ == v && expected == t,
        (ValidatedLoadError::SchemaParse(p), Fault::SchemaSyntax(n, c)) => p@ == (n, c),
        _ => false,
    }
}

/// An error returned while loading and validating configuration files.
#[derive(Debug)]
pub enum ValidatedLoadError {
    Config(LoadError),
    SchemaIo(std::io::Error),
    SchemaParse(SchemaParseError),
    Validation(ValidationError),
}

/// What `format!("{:?}", s)` writes for the text `s`: the text in double
/// quotes, with the characters that need it escaped.
pub uninterp spec fn debug_text(s: Seq<char>) -> Seq<char>;

/// The `Debug` form of a string (`format!("{:?}", s)`).
/// Trusted: the result depends on the characters of `s` alone, and
/// `debug_text` names it.
#[verifier::external_body]
fn debug_quoted(s: &str) -> (r: String)
    ensures
        r@ == debug_text(s@),
{
    format!("{:?}", s)
}

/// The `Display` text of an I/O error.
/// Trusted: nothing is stated of the text, which can come from the operating
/// system.
#[verifier::external_body]
fn io_error_text(error: &std::io::Error) -> String {
    error.to_string()
}

/// Whether the I/O error `e` is of the kind `std::io::ErrorKind::NotFound`.
pub uninterp spec fn io_kind_is_not_found(e: std::io::Error) -> bool;

/// Whether an I/O error is of the kind `std::io::ErrorKind::NotFound`
/// (`std::io::Error::kind`).
/// Trusted: the kind is a property of the error value alone, and
/// `io_kind_is_not_found` names whether it is `NotFound`.
#[verifier::external_body]
fn io_error_is_not_found(error: &std::io::Error) -> (r: bool)
    ensures
        r == io_kind_is_not_found(*error),
{
    error.kind() == std::io::ErrorKind::NotFound
}

/// `s` starts with `prefix`.
pub open spec fn starts_with(s: Seq<char>, prefix: Seq<char>) -> bool {
    prefix.len() <= s.len() && s.take(prefix.len() as int) == prefix
}

/// The message for an invalid configuration line.
pub open spec fn parse_error_message(e: (int, Seq<char>)) -> Seq<char> {
    "invalid sysctl configuration at line "@ + decimal(e.0 as nat) + ": "@ + debug_text(e.1)
}

/// The message for an invalid schema line.
pub open spec fn schema_error_message(e: (int, Seq<char>)) -> Seq<char> {
    "invalid schema at line "@ + decimal(e.0 as nat) + ": "@ + debug_text(e.1)
}

/// The message for a setting that does not conform to the schema.
pub open spec fn validation_message(e: ValidationError) -> Seq<char> {
    match e {
        ValidationError::UnknownKey { line, key } => "setting "@ + debug_text(key@) + " at line "@
            + decimal(line as nat) + " is not defined in the schema"@,
        ValidationError::InvalidValue { line, key, value, expected } => "invalid value "@
            + debug_text(value@) + " for "@ + debug_text(key@) + " at line "@ + decimal(
            line as nat,
        ) + ": expected "@ + expected.name_chars(),
    }
}

/// `m` is the message for `e`; of an I/O error the message holds the
/// operating system's text after a fixed start.
pub open spec fn load_message(e: LoadError, m: Seq<char>) -> bool {
    match e {
        LoadError::Io(_) => starts_with(m, "failed to read sysctl configuration: "@),
        LoadError::Parse(p) => m == parse_error_message(p@),
    }
}

/// `m` is the message for `e`.
pub open spec fn validated_load_message(e: ValidatedLoadError, m: Seq<char>) -> bool {
    match e {
        ValidatedLoadError::Config(l) => load_message(l, m),
        ValidatedLoadError::SchemaIo(_) => starts_with(m, "failed to read schema: "@),
        ValidatedLoadError::SchemaParse(p) => m == schema_error_message(p@),
        ValidatedLoadError::Validation(v) => m == validation_message(v),
    }
}

impl ParseError {
    /// The message that describes the error.
    pub fn message(&self) -> (r: String)
        ensures
            r@ == parse_error_message(self@),
    {
        let mut m = "invalid sysctl configuration at line ".to_owned();
        m.append(decimal_text(self.line).as_str());
        m.append(": ");
        m.append(debug_quoted(self.content.as_str()).as_str());
        m
    }
}

impl SchemaParseError {
    /// The message that describes the error.
    pub fn message(&self) -> (r: String)
        ensures
            r@ == schema_error_message(self@),
    {
        let mut m = "invalid schema at line ".to_owned();
        m.append(decimal_text(self.line).as_str());
        m.append(": ");
        m.append(debug_quoted(self.content.as_str()).as_str());
        m
    }
}

impl ValidationError {
    /// The message that describes the error.
    pub fn message(&self) -> (r: String)
        ensures
            r@ == validation_message(*self),
    {
        match self {
            ValidationError::UnknownKey { line, key } => {
                let mut m = "setting ".to_owned();
                m.append(debug_quoted(key.as_str()).as_str());
                m.append(" at line ");
                m.append(decimal_text(*line).as_str());
                m.append(" is not defined in the schema");
                m
            },
            ValidationError::InvalidValue { line, key, value, expected } => {
                let mut m = "invalid value ".to_owned();
                m.append(debug_quoted(value.as_str()).as_str());
                m.append(" for ");
                m.append(debug_quoted(key.as_str()).as_str());
                m.append(" at line ");
                m.append(decimal_text(*line).as_str());
                m.append(": expected ");
                m.append(expected.name());
                m
            },
        }
    }
}

/// `prefix` followed by `rest`.
fn joined(prefix: &str, rest: &str) -> (r: String)
    ensures
        r@ == prefix@ + rest@,
        starts_with(r@, prefix@),
{
    let mut m = prefix.to_owned();
    m.append(rest);
    assert(m@.take(prefix@.len() as int) =~= prefix@);
    m
}

impl LoadError {
    /// The message that describes the error.
    pub fn message(&self) -> (r: String)
        ensures
            load_message(*self, r@),
    {
        match self {
            LoadError::Io(e) => joined(
                "failed to read sysctl configuration: ",
                io_error_text(e).as_str(),
            ),
            LoadError::Parse(e) => e.message(),
        }
    }
}

impl ValidatedLoadError {
    /// The message that describes the error.
    pub fn message(&self) -> (r: String)
        ensures
            validated_load_message(*self, r@),
    {
        match self {
            ValidatedLoadError::Config(e) => e.message(),
            ValidatedLoadError::SchemaIo(e) => joined(
                "failed to read schema: ",
                io_error_text(e).as_str(),
            ),
            ValidatedLoadError::SchemaParse(e) => e.message(),
            ValidatedLoadError::Validation(e) => e.message(),
        }
    }
}

/// The message that the command line shows for `error`, given whether an
/// I/O error in it is of the kind "not found": a missing configuration or
/// schema file is named by its path; any other error by its own message.
pub fn describe_load_error_given(
    error: &ValidatedLoadError,
    not_found: bool,
    config_path: &str,
    schema_path: &str,
) -> (r: String)
    ensures
        match error {
            ValidatedLoadError::Config(LoadError::Io(_)) if not_found => r@
                == "configuration file not found: "@ + config_path@,
            ValidatedLoadError::SchemaIo(_) if not_found => r@ == "schema file not found: "@
                + schema_path@,
            _ => validated_load_message(*error, r@),
        },
{
    match error {
        ValidatedLoadError::Config(LoadError::Io(_)) if not_found => joined(
            "configuration file not found: ",
            config_path,
        ),
        ValidatedLoadError::SchemaIo(_) if not_found => joined("schema file not found: ", schema_path),
        _ => error.message(),
    }
}

/// The message that the command line shows for `error`: a missing
/// configuration or schema file is named by its path; any other error by its
/// own message.
pub fn describe_load_error(error: &ValidatedLoadError, config_path: &str, schema_path: &str) -> (r:
    String)
    ensures
        match error {
            ValidatedLoadError::Config(LoadError::Io(e)) if io_kind_is_not_found(*e) => r@
                == "configuration file not found: "@ + config_path@,
            ValidatedLoadError::SchemaIo(e) if io_kind_is_not_found(*e) => r@
                == "schema file not found: "@ + schema_path@,
            _ => validated_load_message(*error, r@),
        },
{
    let not_found = match error {
        ValidatedLoadError::Config(LoadError::Io(e)) => io_error_is_not_found(e),
        ValidatedLoadError::SchemaIo(e) => io_error_is_not_found(e),
        _ => false,
    };
    describe_load_error_given(error, not_found, config_path, schema_path)
}

} // verus!
