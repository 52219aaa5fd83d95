//! Schemas: the type that each setting's value must have, and the reading of
//! a configuration against a schema.

use vstd::prelude::*;

use crate::error::{
    reports, Fault, LoadError, ParseError, SchemaParseError, ValidatedLoadError, ValidationError,
};
use crate::parser::{classify_line, key_path, parse_line, settings_of_lines, settings_of_text, LineKind};
use crate::settings::{insert_leaf, KeyPath, Scalar, SysctlMap, SysctlValue};
use crate::text::{
    all_white, chars_of, is_white_space, lemma_trim_padded, line_bounds, lines, text_between, trim,
    trim_bounds,
};

verus! {

/// A supported value type in a schema file.
#[derive(Debug, Clone, Copy, PartialEq, Eq)]
pub enum ValueType {
    String,
    Bool,
    Integer,
}

/// The value type that a schema names `s`: `string`, `bool` or `integer`.
pub open spec fn type_named(s: Seq<char>) -> Option<ValueType> {
    if s == seq!['s', 't', 'r', 'i', 'n', 'g'] {
        Some(ValueType::String)
    } else if s == seq!['b', 'o', 'o', 'l'] {
        Some(ValueType::Bool)
    } else if s == seq!['i', 'n', 't', 'e', 'g', 'e', 'r'] {
        Some(ValueType::Integer)
    } else {
        None
    }
}

impl ValueType {
    /// The name of the type in a schema.
    pub open spec fn name_chars(self) -> Seq<char> {
        match self {
            ValueType::String => seq!['s', 't', 'r', 'i', 'n', 'g'],
            ValueType::Bool => seq!['b', 'o', 'o', 'l'],
            ValueType::Integer => seq!['i', 'n', 't', 'e', 'g', 'e', 'r'],
        }
    }

    /// The name of the type in a schema: `string`, `bool` or `integer`.
    pub fn name(&self) -> (r: &'static str)
        ensures
            r@ == self.name_chars(),
    {
        match self {
            ValueType::String => {
                proof {
                    reveal_strlit("string");
                }
                "string"
            },
            ValueType::Bool => {
                proof {
                    reveal_strlit("bool");
                }
                "bool"
            },
            ValueType::Integer => {
                proof {
                    reveal_strlit("integer");
                }
                "integer"
            },
        }
    }

    /// The value type that a schema names `value`.
    pub fn from_name(value: &str) -> (r: Option<ValueType>)
        ensures
            r == type_named(value@),
    {
        let v = value.to_owned();
        let s = "string".to_owned();
        let b = "bool".to_owned();
        let i = "integer".to_owned();
        proof {
            reveal_strlit("string");
            reveal_strlit("bool");
            reveal_strlit("integer");
            assert(s@ =~= seq!['s', 't', 'r', 'i', 'n', 'g']);
            assert(b@ =~= seq!['b', 'o', 'o', 'l']);
            assert(i@ =~= seq!['i', 'n', 't', 'e', 'g', 'e', 'r']);
        }
        if v == s {
            Some(ValueType::String)
        } else if v == b {
            Some(ValueType::Bool)
        } else if v == i {
            Some(ValueType::Integer)
        } else {
            None
        }
    }
}

impl std::str::FromStr for ValueType {
    type Err = ();

    fn from_str(value: &str) -> (r: Result<Self, Self::Err>)
        ensures
            r == match type_named(value@) {
                Some(t) => Ok::<ValueType, ()>(t),
                None => Err(()),
            },
    {
        match ValueType::from_name(value) {
            Some(t) => Ok(t),
            None => Err(()),
        }
    }
}

/// The truth value that `s` spells: `true` or `false`.
pub open spec fn bool_named(s: Seq<char>) -> Option<bool> {
    if s == seq!['t', 'r', 'u', 'e'] {
        Some(true)
    } else if s == seq!['f', 'a', 'l', 's', 'e'] {
        Some(false)
    } else {
        None
    }
}

pub open spec fn is_digit(c: char) -> bool {
    '0' <= c && c <= '9'
}

/// The number that the decimal digits `s` write.
pub open spec fn digits_value(s: Seq<char>) -> int
    decreases s.len(),
{
    if s.len() == 0 {
        0
    } else {
        digits_value(s.drop_last()) * 10 + (s.last() as int - '0' as int)
    }
}

/// Every character of `s` is a decimal digit.
pub open spec fn all_digits(s: Seq<char>) -> bool {
    forall|i: int| 0 <= i < s.len() ==> is_digit(#[trigger] s[i])
}

/// `s` without its sign, if it starts with one.
pub open spec fn unsigned_part(s: Seq<char>) -> Seq<char> {
    if s.len() > 0 && (s[0] == '-' || s[0] == '+') {
        s.drop_first()
    } else {
        s
    }
}

/// The 64-bit integer that `s` writes: an optional `+` or `-` sign, then one
/// or more decimal digits, for a number that fits in `i64`.
pub open spec fn integer_named(s: Seq<char>) -> Option<int> {
    let digits = unsigned_part(s);
    if digits.len() > 0 && all_digits(digits) {
        let v = if s[0] == '-' {
            -digits_value(digits)
        } else {
            digits_value(digits)
        };
        if i64::MIN <= v <= i64::MAX {
            Some(v)
        } else {
            None
        }
    } else {
        None
    }
}

/// `str::parse::<bool>`.
/// Trusted: as `bool`'s `FromStr` documents, the only accepted inputs are
/// `true` and `false`.
#[verifier::external_body]
fn parse_bool(s: &str) -> (r: Option<bool>)
    ensures
        r == bool_named(s@),
{
    s.parse::<bool>().ok()
}

/// `str::parse::<i64>`.
/// Trusted: as `i64::from_str_radix` documents for base 10, the input is an
/// optional `+` or `-` sign followed by decimal digits only, and a number
/// that does not fit in `i64` is an error.
#[verifier::external_body]
fn parse_i64(s: &str) -> (r: Option<i64>)
    ensures
        match r {
            Some(v) => integer_named(s@) == Some(v as int),
            None => integer_named(s@) is None,
        },
{
    s.parse::<i64>().ok()
}

/// The value of the text `v` as a value of type `t`.
pub open spec fn converted(v: Seq<char>, t: ValueType) -> Option<Scalar> {
    match t {
        ValueType::String => Some(Scalar::Text(v)),
        ValueType::Bool => match bool_named(v) {
            Some(b) => Some(Scalar::Bool(b)),
            None => None,
        },
        ValueType::Integer => match integer_named(v) {
            Some(i) => Some(Scalar::Integer(i)),
            None => None,
        },
    }
}

/// The type of a setting's value.
pub open spec fn type_of(s: Scalar) -> ValueType {
    match s {
        Scalar::Text(_) => ValueType::String,
        Scalar::Bool(_) => ValueType::Bool,
        Scalar::Integer(_) => ValueType::Integer,
    }
}

/// The type that each key's value must have.
#[derive(Debug)]
pub struct Schema {
    entries: Vec<(String, ValueType)>,
}

impl Schema {
    pub closed spec fn keys_unique(self) -> bool {
        forall|i: int, j: int|
            0 <= i < self.entries@.len() && 0 <= j < self.entries@.len() && i != j
                ==> #[trigger] self.entries@[i].0@ != #[trigger] self.entries@[j].0@
    }

    pub closed spec fn key_index(self, k: Seq<char>) -> int {
        choose|i: int| 0 <= i < self.entries@.len() && #[trigger] self.entries@[i].0@ == k
    }

    /// Keys are unique.
    pub closed spec fn wf(self) -> bool {
        self.keys_unique()
    }
}

impl View for Schema {
    type V = Map<Seq<char>, ValueType>;

    /// The type of each declared key.
    closed spec fn view(&self) -> Map<Seq<char>, ValueType> {
        Map::new(
            |k: Seq<char>| exists|i: int| 0 <= i < self.entries@.len() && #[trigger] self.entries@[i].0@ == k,
            |k: Seq<char>| self.entries@[self.key_index(k)].1,
        )
    }
}

impl Schema {
    proof fn lemma_index(self, j: int)
        requires
            self.keys_unique(),
            0 <= j < self.entries@.len(),
        ensures
            self@.contains_key(self.entries@[j].0@),
            self@[self.entries@[j].0@] == self.entries@[j].1,
    {
        let k = self.entries@[j].0@;
        assert(0 <= j < self.entries@.len() && self.entries@[j].0@ == k);
        let i = self.key_index(k);
        if i != j {
            assert(self.entries@[i].0@ != self.entries@[j].0@);
        }
    }

    /// A schema that declares no key.
    pub fn new() -> (r: Schema)
        ensures
            r.wf(),
            r@ == Map::<Seq<char>, ValueType>::empty(),
    {
        let r = Schema { entries: Vec::new() };
        assert(r@ =~= Map::<Seq<char>, ValueType>::empty());
        r
    }

    /// The type declared for `key`.
    pub fn get(&self, key: &String) -> (r: Option<ValueType>)
        requires
            self.wf(),
        ensures
            r == (if self@.contains_key(key@) {
                Some(self@[key@])
            } else {
                None
            }),
    {
        let mut i: usize = 0;
        while i < self.entries.len()
            invariant
                i <= self.entries@.len(),
                self.wf(),
                forall|j: int| 0 <= j < i ==> #[trigger] self.entries@[j].0@ != key@,
            decreases self.entries@.len() - i,
        {
            if self.entries[i].0 == *key {
                proof {
                    self.lemma_index(i as int);
                }
                return Some(self.entries[i].1);
            }
            i = i + 1;
        }
        None
    }

    /// The schema `new`, which is `old` with the entry at `at` set to `e`, or
    /// with `e` added when `at` is past the end, declares `e`.
    proof fn lemma_set_entry(old: Schema, new: Schema, at: int, e: (String, ValueType))
        requires
            old.keys_unique(),
            0 <= at <= old.entries@.len(),
            at < old.entries@.len() ==> old.entries@[at].0@ == e.0@ && new.entries@
                == old.entries@.update(at, e),
            at == old.entries@.len() ==> new.entries@ == old.entries@.push(e) && forall|j: int|
                0 <= j < old.entries@.len() ==> #[trigger] old.entries@[j].0@ != e.0@,
        ensures
            new.keys_unique(),
            new@ == old@.insert(e.0@, e.1),
    {
        assert(new.entries@[at] == e);
        assert forall|a: int, b: int|
            0 <= a < new.entries@.len() && 0 <= b < new.entries@.len() && a
                != b implies #[trigger] new.entries@[a].0@ != #[trigger] new.entries@[b].0@ by {
            if a != at && b != at {
                assert(old.entries@[a].0@ != old.entries@[b].0@);
            } else if a == at && at < old.entries@.len() {
                assert(old.entries@[a].0@ != old.entries@[b].0@);
            } else if b == at && at < old.entries@.len() {
                assert(old.entries@[a].0@ != old.entries@[b].0@);
            } else if a == at {
                assert(new.entries@[b] == old.entries@[b]);
            } else {
                assert(new.entries@[a] == old.entries@[a]);
            }
        }
        let m = old@.insert(e.0@, e.1);
        new.lemma_index(at);
        assert forall|k: Seq<char>|
            #![trigger new@.contains_key(k)]
            #![trigger m.contains_key(k)]
            new@.contains_key(k) == m.contains_key(k) && (new@.contains_key(k) ==> new@[k] == m[k]) by {
            if k != e.0@ {
                if new@.contains_key(k) {
                    let j = new.key_index(k);
                    new.lemma_index(j);
                    assert(j != at);
                    assert(new.entries@[j] == old.entries@[j]);
                    old.lemma_index(j);
                }
                if old@.contains_key(k) {
                    let j = old.key_index(k);
                    old.lemma_index(j);
                    assert(j != at);
                    assert(new.entries@[j] == old.entries@[j]);
                    new.lemma_index(j);
                }
            }
        }
        assert(new@.dom() =~= m.dom());
        assert(new@ =~= m);
    }

    /// Declares `key` to have the type `value_type`, in place of any earlier
    /// declaration.
    pub fn insert(&mut self, key: String, value_type: ValueType)
        requires
            old(self).wf(),
        ensures
            final(self).wf(),
            final(self)@ == old(self)@.insert(key@, value_type),
    {
        let ghost old_self = *self;
        let mut i: usize = 0;
        let mut at: Option<usize> = None;
        while i < self.entries.len()
            invariant
                i <= self.entries@.len(),
                *self == old_self,
                old_self.wf(),
                match at {
                    Some(a) => a < self.entries@.len() && self.entries@[a as int].0@ == key@,
                    None => forall|j: int| 0 <= j < i ==> #[trigger] self.entries@[j].0@ != key@,
                },
            decreases self.entries@.len() - i,
        {
            if at.is_none() && self.entries[i].0 == key {
                at = Some(i);
            }
            i = i + 1;
        }
        let e = (key, value_type);
        match at {
            Some(a) => {
                self.entries.set(a, e);
                proof {
                    Self::lemma_set_entry(old_self, *self, a as int, e);
                }
            },
            None => {
                self.entries.push(e);
                proof {
                    Self::lemma_set_entry(old_self, *self, old_self.entries@.len() as int, e);
                }
            },
        }
    }
}

/// What a schema line holds.
pub enum SchemaLineKind {
    /// Nothing: the line is empty, white space, or a comment.
    Blank,
    /// A declaration: a key and the type of its value.
    Declaration(Seq<char>, ValueType),
    /// No valid declaration; the line as it reads once trimmed.
    Malformed(Seq<char>),
}

/// The index of the first `->` in `s`.
pub open spec fn first_arrow(s: Seq<char>) -> Option<int>
    decreases s.len(),
{
    if s.len() < 2 {
        None
    } else if s[0] == '-' && s[1] == '>' {
        Some(0)
    } else {
        match first_arrow(s.drop_first()) {
            Some(i) => Some(i + 1),
            None => None,
        }
    }
}

/// How a schema line reads. Once trimmed, a line that is empty or starts
/// with `#` or `;` is blank; otherwise it reads `key -> type`, split at the
/// first `->`, where the trimmed key is nonempty and the trimmed type is one
/// that `type_named` knows.
pub open spec fn classify_schema_line(line: Seq<char>) -> SchemaLineKind {
    let t = trim(line);
    if t.len() == 0 || t[0] == '#' || t[0] == ';' {
        SchemaLineKind::Blank
    } else {
        match first_arrow(t) {
            None => SchemaLineKind::Malformed(t),
            Some(i) => {
                let key = trim(t.take(i));
                match type_named(trim(t.skip(i + 2))) {
                    None => SchemaLineKind::Malformed(t),
                    Some(ty) => if key.len() == 0 {
                        SchemaLineKind::Malformed(t)
                    } else {
                        SchemaLineKind::Declaration(key, ty)
                    },
                }
            },
        }
    }
}

/// The schema `m` once the line `line`, numbered `number`, is read.
pub open spec fn schema_after_line(m: Map<Seq<char>, ValueType>, line: Seq<char>, number: int) -> Result<
    Map<Seq<char>, ValueType>,
    (int, Seq<char>),
> {
    match classify_schema_line(line) {
        SchemaLineKind::Blank => Ok(m),
        SchemaLineKind::Declaration(k, t) => Ok(m.insert(k, t)),
        SchemaLineKind::Malformed(c) => Err((number, c)),
    }
}

/// The schema that the lines `ls` declare, or the error of the first
/// malformed line.
pub open spec fn schema_of_lines(ls: Seq<Seq<char>>) -> Result<
    Map<Seq<char>, ValueType>,
    (int, Seq<char>),
>
    decreases ls.len(),
{
    if ls.len() == 0 {
        Ok(Map::empty())
    } else {
        match schema_of_lines(ls.drop_last()) {
            Err(e) => Err(e),
            Ok(m) => schema_after_line(m, ls.last(), ls.len() as int),
        }
    }
}

/// The settings `m` once the configuration line `line`, numbered `number`,
/// is read against the schema `schema`: a setting's key must be declared, and
/// its value must read as a value of the declared type.
pub open spec fn checked_after_line(
    m: Map<KeyPath, Scalar>,
    schema: Map<Seq<char>, ValueType>,
    line: Seq<char>,
    number: int,
) -> Result<Map<KeyPath, Scalar>, Fault> {
    match classify_line(line) {
        LineKind::Blank => Ok(m),
        LineKind::Malformed => Err(Fault::Syntax(number, line)),
        LineKind::Setting(k, v) => if !schema.contains_key(k) {
            Err(Fault::UnknownKey(number, k))
        } else {
            match converted(v, schema[k]) {
                None => Err(Fault::InvalidValue(number, k, v, schema[k])),
                Some(x) => Ok(insert_leaf(m, key_path(k), x)),
            }
        },
    }
}

/// The settings that the lines `ls` build against `schema`, or the fault of
/// the first line that fails.
pub open spec fn checked_settings_of_lines(schema: Map<Seq<char>, ValueType>, ls: Seq<Seq<char>>) -> Result<
    Map<KeyPath, Scalar>,
    Fault,
>
    decreases ls.len(),
{
    if ls.len() == 0 {
        Ok(Map::empty())
    } else {
        match checked_settings_of_lines(schema, ls.drop_last()) {
            Err(e) => Err(e),
            Ok(m) => checked_after_line(m, schema, ls.last(), ls.len() as int),
        }
    }
}

/// What a configuration text and a schema text give: the schema's first
/// malformed line, or else the settings of the configuration read against the
/// schema.
pub open spec fn settings_with_schema(input: Seq<char>, schema: Seq<char>) -> Result<
    Map<KeyPath, Scalar>,
    Fault,
> {
    match schema_of_lines(lines(schema)) {
        Err((n, c)) => Err(Fault::SchemaSyntax(n, c)),
        Ok(s) => checked_settings_of_lines(s, lines(input)),
    }
}

/// The error for the schema line at the zero-based `index`, which reads
/// `content`.
fn schema_error<T>(index: usize, content: &str) -> (r: Result<T, ValidatedLoadError>)
    requires
        index < usize::MAX,
    ensures
        r matches Err(e) && reports(e, Fault::SchemaSyntax(index + 1, content@)),
{
    Err(ValidatedLoadError::SchemaParse(SchemaParseError::new(index + 1, content.to_owned())))
}

/// The bounds of a schema line.
enum SchemaLineParts {
    Blank,
    Declaration(usize, usize, ValueType),
    Malformed(usize, usize),
}

/// The first `->` in `cs[lo..hi]`.
fn find_arrow(cs: &[char], lo: usize, hi: usize) -> (r: Option<usize>)
    requires
        lo <= hi <= cs@.len(),
    ensures
        match r {
            Some(i) => lo <= i && i + 2 <= hi && first_arrow(cs@.subrange(lo as int, hi as int)) == Some(
                i - lo,
            ),
            None => first_arrow(cs@.subrange(lo as int, hi as int)) is None,
        },
{
    let mut i = lo;
    while hi - i >= 2
        invariant
            lo <= i <= hi,
            hi <= cs@.len(),
            first_arrow(cs@.subrange(lo as int, hi as int)) == match first_arrow(
                cs@.subrange(i as int, hi as int),
            ) {
                Some(j) => Some(j + (i - lo)),
                None => None,
            },
        decreases hi - i,
    {
        if cs[i] == '-' && cs[i + 1] == '>' {
            return Some(i);
        }
        assert(cs@.subrange(i as int, hi as int).drop_first() =~= cs@.subrange(i + 1, hi as int));
        i = i + 1;
    }
    None
}

/// How the schema line `cs[lo..hi]` reads, as bounds into `cs`.
fn classify_schema_bounds(cs: &[char], lo: usize, hi: usize) -> (r: SchemaLineParts)
    requires
        lo <= hi <= cs@.len(),
    ensures
        match r {
            SchemaLineParts::Blank => classify_schema_line(cs@.subrange(lo as int, hi as int))
                == SchemaLineKind::Blank,
            SchemaLineParts::Declaration(ka, kb, t) => ka <= kb <= cs@.len() && classify_schema_line(
                cs@.subrange(lo as int, hi as int),
            ) == SchemaLineKind::Declaration(cs@.subrange(ka as int, kb as int), t),
            SchemaLineParts::Malformed(a, b) => a <= b <= cs@.len() && classify_schema_line(
                cs@.subrange(lo as int, hi as int),
            ) == SchemaLineKind::Malformed(cs@.subrange(a as int, b as int)),
        },
{
    let (a, b) = trim_bounds(cs, lo, hi);
    let ghost t = cs@.subrange(a as int, b as int);
    if a == b || cs[a] == '#' || cs[a] == ';' {
        return SchemaLineParts::Blank;
    }
    assert(t[0] == cs@[a as int]);
    match find_arrow(cs, a, b) {
        None => SchemaLineParts::Malformed(a, b),
        Some(i) => {
            assert(t.take(i - a) =~= cs@.subrange(a as int, i as int));
            assert(t.skip(i - a + 2) =~= cs@.subrange(i + 2, b as int));
            let (ka, kb) = trim_bounds(cs, a, i);
            let (ta, tb) = trim_bounds(cs, i + 2, b);
            let name = text_between(cs, ta, tb);
            match ValueType::from_name(name.as_str()) {
                None => SchemaLineParts::Malformed(a, b),
                Some(ty) => if ka == kb {
                    SchemaLineParts::Malformed(a, b)
                } else {
                    SchemaLineParts::Declaration(ka, kb, ty)
                },
            }
        },
    }
}

/// Reads one schema line at the zero-based `index`: its key and type, `None`
/// for a blank line, or the error that reports it.
pub(crate) fn parse_schema_line(line: &str, index: usize) -> (r: Result<
    Option<(String, ValueType)>,
    ValidatedLoadError,
>)
    requires
        index < usize::MAX,
    ensures
        match classify_schema_line(line@) {
            SchemaLineKind::Blank => r matches Ok(None),
            SchemaLineKind::Declaration(k, t) => r matches Ok(Some((key, ty))) && key@ == k && ty
                == t,
            SchemaLineKind::Malformed(c) => r matches Err(e) && reports(
                e,
                Fault::SchemaSyntax(index + 1, c),
            ),
        },
{
    let cs = chars_of(line);
    assert(cs@.subrange(0, cs@.len() as int) =~= line@);
    match classify_schema_bounds(cs.as_slice(), 0, cs.len()) {
        SchemaLineParts::Blank => Ok(None),
        SchemaLineParts::Declaration(ka, kb, t) => Ok(Some((text_between(cs.as_slice(), ka, kb), t))),
        SchemaLineParts::Malformed(a, b) => {
            let content = text_between(cs.as_slice(), a, b);
            schema_error(index, content.as_str())
        },
    }
}

impl Schema {
    /// Reads one schema line, numbered `number` from one: records its
    /// declaration, if it holds one, or reports it as malformed and changes
    /// nothing.
    pub fn read_line(&mut self, line: &str, number: usize) -> (r: Result<(), ValidatedLoadError>)
        requires
            old(self).wf(),
            number > 0,
        ensures
            final(self).wf(),
            match schema_after_line(old(self)@, line@, number as int) {
                Ok(m) => r is Ok && final(self)@ == m,
                Err((n, c)) => r matches Err(e) && reports(e, Fault::SchemaSyntax(n, c))
                    && final(self)@ == old(self)@,
            },
    {
        match parse_schema_line(line, number - 1) {
            Ok(None) => Ok(()),
            Ok(Some((key, t))) => {
                self.insert(key, t);
                Ok(())
            },
            Err(e) => Err(e),
        }
    }
}

/// Reads a schema text.
fn parse_schema_str(text: &str) -> (r: Result<Schema, ValidatedLoadError>)
    ensures
        match schema_of_lines(lines(text@)) {
            Ok(m) => r matches Ok(s) && s.wf() && s@ == m,
            Err((n, c)) => r matches Err(e) && reports(e, Fault::SchemaSyntax(n, c)),
        },
{
    let cs = chars_of(text);
    let bounds = line_bounds(cs.as_slice());
    let ghost ls = lines(cs@);
    let mut schema = Schema::new();
    let mut k: usize = 0;
    assert(ls.take(0) =~= Seq::<Seq<char>>::empty());
    while k < bounds.len()
        invariant
            k <= bounds@.len(),
            bounds@.len() == ls.len(),
            ls == lines(cs@),
            cs@ == text@,
            forall|j: int|
                0 <= j < bounds@.len() ==> #[trigger] bounds@[j].0 <= bounds@[j].1 <= cs@.len()
                    && cs@.subrange(bounds@[j].0 as int, bounds@[j].1 as int) == ls[j],
            schema.wf(),
            schema_of_lines(ls.take(k as int)) == Ok::<Map<Seq<char>, ValueType>, (int, Seq<char>)>(
                schema@,
            ),
        decreases bounds@.len() - k,
    {
        let (lo, hi) = bounds[k];
        assert(ls.take(k + 1).drop_last() =~= ls.take(k as int));
        assert(ls.take(k + 1).last() == ls[k as int]);
        let line = text_between(cs.as_slice(), lo, hi);
        let res = schema.read_line(line.as_str(), k + 1);
        if let Err(e) = res {
            proof {
                lemma_schema_of_lines_stop(ls, k + 1);
            }
            return Err(e);
        }
        k = k + 1;
    }
    assert(ls.take(k as int) =~= ls);
    Ok(schema)
}

/// Reading a schema stops at its first malformed line.
pub proof fn lemma_schema_of_lines_stop(ls: Seq<Seq<char>>, k: int)
    requires
        0 <= k <= ls.len(),
        schema_of_lines(ls.take(k)) is Err,
    ensures
        schema_of_lines(ls) == schema_of_lines(ls.take(k)),
    decreases ls.len() - k,
{
    if k < ls.len() {
        assert(ls.take(k + 1).drop_last() =~= ls.take(k));
        lemma_schema_of_lines_stop(ls, k + 1);
    } else {
        assert(ls.take(k) =~= ls);
    }
}

/// The value of `value`, the value of the setting `key` on the line numbered
/// `line`, as a value of type `value_type`, or the error that reports it.
fn convert_value(key: &str, value: &str, value_type: ValueType, line: usize) -> (r: Result<
    SysctlValue,
    ValidatedLoadError,
>)
    ensures
        match converted(value@, value_type) {
            Some(x) => r matches Ok(v) && v.scalar() == Some(x),
            None => r matches Err(e) && reports(
                e,
                Fault::InvalidValue(line as int, key@, value@, value_type),
            ),
        },
{
    let converted = match value_type {
        ValueType::String => Some(SysctlValue::Text(value.to_owned())),
        ValueType::Bool => match parse_bool(value) {
            Some(b) => Some(SysctlValue::Bool(b)),
            None => None,
        },
        ValueType::Integer => match parse_i64(value) {
            Some(i) => Some(SysctlValue::Integer(i)),
            None => None,
        },
    };
    match converted {
        Some(v) => Ok(v),
        None => Err(
            ValidatedLoadError::Validation(
                ValidationError::InvalidValue {
                    line,
                    key: key.to_owned(),
                    value: value.to_owned(),
                    expected: value_type,
                },
            ),
        ),
    }
}

impl SysctlMap {
    /// Reads one configuration line, numbered `number` from one, against
    /// `schema`: stores its setting, converted to the declared type, or
    /// reports the line and changes nothing.
    pub fn read_checked_line(&mut self, line: &str, number: usize, schema: &Schema) -> (r: Result<
        (),
        ValidatedLoadError,
    >)
        requires
            old(self).wf(),
            schema.wf(),
        ensures
            final(self).wf(),
            match checked_after_line(old(self)@, schema@, line@, number as int) {
                Ok(m) => r is Ok && final(self)@ == m,
                Err(f) => r matches Err(e) && reports(e, f) && final(self)@ == old(self)@,
            },
    {
        let (key, value) = match parse_line(line, number) {
            Ok(None) => return Ok(()),
            Ok(Some(pair)) => pair,
            Err(e) => return Err(ValidatedLoadError::Config(LoadError::Parse(e))),
        };
        let value_type = match schema.get(&key) {
            Some(t) => t,
            None => {
                return Err(
                    ValidatedLoadError::Validation(
                        ValidationError::UnknownKey { line: number, key: key.clone() },
                    ),
                )
            },
        };
        let v = convert_value(key.as_str(), value.as_str(), value_type, number)?;
        self.insert_nested(key.as_str(), v);
        Ok(())
    }
}

/// Parses and validates configuration and schema strings.
pub fn parse_str_with_schema(input: &str, schema: &str) -> (r: Result<SysctlMap, ValidatedLoadError>)
    ensures
        match settings_with_schema(input@, schema@) {
            Ok(m) => r matches Ok(map) && map.wf() && map@ == m,
            Err(f) => r matches Err(e) && reports(e, f),
        },
{
    let declared = match parse_schema_str(schema) {
        Ok(s) => s,
        Err(e) => return Err(e),
    };
    let cs = chars_of(input);
    let bounds = line_bounds(cs.as_slice());
    let ghost ls = lines(cs@);
    let mut map = SysctlMap::new();
    let mut k: usize = 0;
    assert(ls.take(0) =~= Seq::<Seq<char>>::empty());
    while k < bounds.len()
        invariant
            k <= bounds@.len(),
            bounds@.len() == ls.len(),
            ls == lines(cs@),
            cs@ == input@,
            forall|j: int|
                0 <= j < bounds@.len() ==> #[trigger] bounds@[j].0 <= bounds@[j].1 <= cs@.len()
                    && cs@.subrange(bounds@[j].0 as int, bounds@[j].1 as int) == ls[j],
            map.wf(),
            declared.wf(),
            schema_of_lines(lines(schema@)) == Ok::<Map<Seq<char>, ValueType>, (int, Seq<char>)>(
                declared@,
            ),
            checked_settings_of_lines(declared@, ls.take(k as int)) == Ok::<Map<KeyPath, Scalar>, Fault>(
                map@,
            ),
        decreases bounds@.len() - k,
    {
        let (lo, hi) = bounds[k];
        assert(ls.take(k + 1).drop_last() =~= ls.take(k as int));
        assert(ls.take(k + 1).last() == ls[k as int]);
        let line = text_between(cs.as_slice(), lo, hi);
        let res = map.read_checked_line(line.as_str(), k + 1, &declared);
        if let Err(e) = res {
            proof {
                lemma_checked_settings_stop(declared@, ls, k + 1);
            }
            return Err(e);
        }
        k = k + 1;
    }
    assert(ls.take(k as int) =~= ls);
    Ok(map)
}

/// Reading against a schema stops at the first line that fails.
pub proof fn lemma_checked_settings_stop(
    schema: Map<Seq<char>, ValueType>,
    ls: Seq<Seq<char>>,
    k: int,
)
    requires
        0 <= k <= ls.len(),
        checked_settings_of_lines(schema, ls.take(k)) is Err,
    ensures
        checked_settings_of_lines(schema, ls) == checked_settings_of_lines(schema, ls.take(k)),
    decreases ls.len() - k,
{
    if k < ls.len() {
        assert(ls.take(k + 1).drop_last() =~= ls.take(k));
        lemma_checked_settings_stop(schema, ls, k + 1);
    } else {
        assert(ls.take(k) =~= ls);
    }
}

/// Each setting of `m` has the type that `schema` declares for a key that
/// names its path.
pub open spec fn conforms(m: Map<KeyPath, Scalar>, schema: Map<Seq<char>, ValueType>) -> bool {
    forall|p: KeyPath| #[trigger]
        m.contains_key(p) ==> exists|k: Seq<char>|
            key_path(k) == p && #[trigger] schema.contains_key(k) && schema[k] == type_of(m[p])
}

/// Every setting read against a schema has the type that the schema
/// declares for its key.
pub proof fn lemma_checked_settings_conform(schema: Map<Seq<char>, ValueType>, ls: Seq<Seq<char>>)
    ensures
        checked_settings_of_lines(schema, ls) matches Ok(m) ==> conforms(m, schema),
    decreases ls.len(),
{
    if ls.len() > 0 {
        lemma_checked_settings_conform(schema, ls.drop_last());
        if let Ok(m0) = checked_settings_of_lines(schema, ls.drop_last()) {
            if let LineKind::Setting(k, v) = classify_line(ls.last()) {
                if schema.contains_key(k) {
                    if let Some(x) = converted(v, schema[k]) {
                        let m = insert_leaf(m0, key_path(k), x);
                        assert forall|p: KeyPath| #[trigger] m.contains_key(p) implies exists|
                            k2: Seq<char>,
                        |
                            key_path(k2) == p && #[trigger] schema.contains_key(k2) && schema[k2]
                                == type_of(m[p]) by {
                            if p == key_path(k) {
                                assert(key_path(k) == p && schema.contains_key(k) && schema[k]
                                    == type_of(m[p]));
                            } else {
                                assert(m0.contains_key(p));
                                let k2 = choose|k2: Seq<char>|
                                    key_path(k2) == p && #[trigger] schema.contains_key(k2)
                                        && schema[k2] == type_of(m0[p]);
                                assert(key_path(k2) == p && schema.contains_key(k2) && schema[k2]
                                    == type_of(m[p]));
                            }
                        }
                    }
                }
            }
        }
    }
}

/// Every setting among the lines `ls` has a key that `schema` declares as a
/// string.
pub open spec fn keys_declared_text(schema: Map<Seq<char>, ValueType>, ls: Seq<Seq<char>>) -> bool {
    forall|i: int|
        0 <= i < ls.len() ==> match classify_line(#[trigger] ls[i]) {
            LineKind::Setting(k, _) => schema.contains_key(k) && schema[k] == ValueType::String,
            _ => true,
        }
}

/// Against a schema that declares every key as a string, lines read as they
/// do without a schema, and a malformed line is reported as the same syntax
/// error.
pub proof fn lemma_text_schema_reads_plainly(schema: Map<Seq<char>, ValueType>, ls: Seq<Seq<char>>)
    requires
        keys_declared_text(schema, ls),
    ensures
        match settings_of_lines(ls) {
            Ok(m) => checked_settings_of_lines(schema, ls) == Ok::<Map<KeyPath, Scalar>, Fault>(m),
            Err((n, c)) => checked_settings_of_lines(schema, ls) == Err::<
                Map<KeyPath, Scalar>,
                Fault,
            >(Fault::Syntax(n, c)),
        },
    decreases ls.len(),
{
    if ls.len() > 0 {
        assert forall|i: int| 0 <= i < ls.drop_last().len() implies match classify_line(
            #[trigger] ls.drop_last()[i],
        ) {
            LineKind::Setting(k, _) => schema.contains_key(k) && schema[k] == ValueType::String,
            _ => true,
        } by {
            assert(ls.drop_last()[i] == ls[i]);
        }
        lemma_text_schema_reads_plainly(schema, ls.drop_last());
        assert(ls.last() == ls[ls.len() - 1]);
    }
}

/// With a schema text that declares every key of the configuration's
/// settings as a string, `parse_str_with_schema` gives what `parse_str`
/// gives, with a malformed line reported as the same syntax error.
pub proof fn lemma_text_schema_parses_plainly(input: Seq<char>, schema_text: Seq<char>)
    requires
        schema_of_lines(lines(schema_text)) matches Ok(s) && keys_declared_text(s, lines(input)),
    ensures
        match settings_of_text(input) {
            Ok(m) => settings_with_schema(input, schema_text) == Ok::<Map<KeyPath, Scalar>, Fault>(m),
            Err((n, c)) => settings_with_schema(input, schema_text) == Err::<
                Map<KeyPath, Scalar>,
                Fault,
            >(Fault::Syntax(n, c)),
        },
{
    let s = schema_of_lines(lines(schema_text))->Ok_0;
    lemma_text_schema_reads_plainly(s, lines(input));
}

/// `->` starts at `i` in `s`.
pub open spec fn arrow_at(s: Seq<char>, i: int) -> bool {
    0 <= i && i + 1 < s.len() && s[i] == '-' && s[i + 1] == '>'
}

/// The first `->` that a search finds is the one `first_arrow` names.
proof fn lemma_first_arrow_found(s: Seq<char>, i: int)
    requires
        arrow_at(s, i),
        forall|j: int| 0 <= j < i ==> !#[trigger] arrow_at(s, j),
    ensures
        first_arrow(s) == Some(i),
    decreases i,
{
    if i > 0 {
        assert(!arrow_at(s, 0));
        let d = s.drop_first();
        assert(arrow_at(d, i - 1));
        assert forall|j: int| 0 <= j < i - 1 implies !#[trigger] arrow_at(d, j) by {
            assert(!arrow_at(s, j + 1));
        }
        lemma_first_arrow_found(d, i - 1);
    }
}

/// A schema line that reads `key -> type` declares `key` with that type:
/// the line is split at the `->`, with or without white space around the
/// key, the arrow and the type's name, provided the key holds no `->`, does
/// not start a comment, and neither starts nor ends with white space.
pub proof fn lemma_arrow_line(
    w0: Seq<char>,
    k: Seq<char>,
    w1: Seq<char>,
    w2: Seq<char>,
    ty: ValueType,
    w3: Seq<char>,
)
    requires
        all_white(w0),
        all_white(w1),
        all_white(w2),
        all_white(w3),
        k.len() > 0,
        !is_white_space(k[0]),
        !is_white_space(k.last()),
        forall|j: int| 0 <= j < k.len() ==> !#[trigger] arrow_at(k, j),
        k[0] != '#' && k[0] != ';',
    ensures
        classify_schema_line(w0 + k + w1 + seq!['-', '>'] + w2 + ty.name_chars() + w3)
            == SchemaLineKind::Declaration(k, ty),
{
    let n = ty.name_chars();
    assert(n.len() > 0 && !is_white_space(n[0]) && !is_white_space(n.last()) && type_named(n)
        == Some(ty)) by {
        match ty {
            ValueType::String => {},
            ValueType::Bool => {},
            ValueType::Integer => {},
        }
    }
    let t = k + w1 + seq!['-', '>'] + w2 + n;
    assert(w0 + k + w1 + seq!['-', '>'] + w2 + n + w3 =~= w0 + t + w3);
    assert(t[0] == k[0]);
    assert(t.last() == n.last());
    lemma_trim_padded(w0, t, w3);
    let i = (k.len() + w1.len()) as int;
    assert(t[i] == '-' && t[i + 1] == '>');
    assert forall|j: int| 0 <= j < i implies !#[trigger] arrow_at(t, j) by {
        if j + 1 < k.len() {
            assert(t[j] == k[j] && t[j + 1] == k[j + 1]);
            assert(!arrow_at(k, j));
        } else if j + 1 == k.len() {
            if w1.len() > 0 {
                assert(t[j + 1] == w1[0]);
                assert(is_white_space(w1[0]));
            } else {
                assert(t[j + 1] == '-');
            }
        } else {
            assert(t[j] == w1[j - k.len()]);
            assert(is_white_space(w1[j - k.len()]));
        }
    }
    lemma_first_arrow_found(t, i);
    let e = Seq::<char>::empty();
    assert(all_white(e));
    assert(t.take(i) =~= e + k + w1);
    lemma_trim_padded(e, k, w1);
    assert(t.skip(i + 2) =~= w2 + n + e);
    lemma_trim_padded(w2, n, e);
}

/// A number written with decimal digits, with or without a sign, is read as
/// that number, negative after `-`.
pub proof fn lemma_integer_values(d: Seq<char>)
    requires
        d.len() > 0,
        all_digits(d),
        digits_value(d) <= i64::MAX,
    ensures
        converted(d, ValueType::Integer) == Some(Scalar::Integer(digits_value(d))),
        converted(seq!['+'] + d, ValueType::Integer) == Some(Scalar::Integer(digits_value(d))),
        converted(seq!['-'] + d, ValueType::Integer) == Some(Scalar::Integer(-digits_value(d))),
{
    lemma_digits_value_nonnegative(d);
    if d[0] == '-' || d[0] == '+' {
        assert(!is_digit(d[0]));
    }
    assert((seq!['+'] + d).drop_first() =~= d);
    assert((seq!['-'] + d).drop_first() =~= d);
}

proof fn lemma_digits_value_nonnegative(d: Seq<char>)
    requires
        all_digits(d),
    ensures
        digits_value(d) >= 0,
    decreases d.len(),
{
    if d.len() > 0 {
        assert(all_digits(d.drop_last())) by {
            assert forall|i: int| 0 <= i < d.drop_last().len() implies is_digit(
                #[trigger] d.drop_last()[i],
            ) by {
                assert(d.drop_last()[i] == d[i]);
            }
        }
        lemma_digits_value_nonnegative(d.drop_last());
        assert(is_digit(d[d.len() - 1]));
    }
}

/// The texts `true` and `false` are the truth values, and a string setting
/// keeps its text as it is.
pub proof fn lemma_bool_and_string_values(v: Seq<char>)
    ensures
        converted(seq!['t', 'r', 'u', 'e'], ValueType::Bool) == Some(Scalar::Bool(true)),
        converted(seq!['f', 'a', 'l', 's', 'e'], ValueType::Bool) == Some(Scalar::Bool(false)),
        converted(v, ValueType::String) == Some(Scalar::Text(v)),
{
}

/// Against a schema, a later valid setting holds its converted value,
/// whatever its type and whatever was set before.
pub proof fn lemma_later_checked_setting_wins(
    schema: Map<Seq<char>, ValueType>,
    ls: Seq<Seq<char>>,
    l: Seq<char>,
    k: Seq<char>,
    v: Seq<char>,
    x: Scalar,
)
    requires
        checked_settings_of_lines(schema, ls) is Ok,
        classify_line(l) == LineKind::Setting(k, v),
        schema.contains_key(k),
        converted(v, schema[k]) == Some(x),
    ensures
        checked_settings_of_lines(schema, ls.push(l)) matches Ok(m) && m.contains_key(key_path(k))
            && m[key_path(k)] == x,
{
    assert(ls.push(l).drop_last() =~= ls);
}

} // verus!
