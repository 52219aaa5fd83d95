//! The sysctl.conf grammar: how a line reads, and how the lines of a
//! configuration build nested settings.

use vstd::prelude::*;

use crate::error::ParseError;
use crate::settings::{insert_leaf, path_of, KeyPath, Scalar, SysctlMap, SysctlValue};
use crate::text::{
    all_white, is_white_space, lemma_first_index_found, lemma_trim_commutes, lemma_trim_end_cons,
    lemma_trim_padded, lemma_trim_start_first, trim_end,
    chars_of, equals, find_char, find_white_space, first_index, line_bounds, lines,
    lemma_lines_append, lemma_lines_prepend, lemma_split_on_len, lemma_trim_strip_cr, skip_white_space, strip_cr, split_on, text_between, trim, trim_bounds, trim_start,
    white,
};

verus! {

/// What a configuration line holds.
pub enum LineKind {
    /// Nothing: the line is empty, white space, or a comment.
    Blank,
    /// A setting: its key and its value.
    Setting(Seq<char>, Seq<char>),
    /// No valid setting.
    Malformed,
}

/// How a configuration line reads. Once trimmed, a line that is empty or
/// starts with `#` or `;` is blank. Otherwise a leading `-` (which asks
/// sysctl to ignore errors of the setting) is dropped along with the white
/// space after it; the key and the value are then either side of the first
/// `=`, or, when there is none, of the first white space; both are trimmed
/// and must be nonempty.
pub open spec fn classify_line(line: Seq<char>) -> LineKind {
    let t = trim(line);
    if t.len() == 0 || t[0] == '#' || t[0] == ';' {
        LineKind::Blank
    } else {
        let r = trim_start(
            if t[0] == '-' {
                t.drop_first()
            } else {
                t
            },
        );
        let pair = match first_index(r, equals('=')) {
            Some(i) => Some((trim(r.take(i)), trim(r.skip(i + 1)))),
            None => match first_index(r, white()) {
                Some(j) => Some((r.take(j), trim(r.skip(j)))),
                None => None,
            },
        };
        match pair {
            Some((k, v)) => if k.len() > 0 && v.len() > 0 {
                LineKind::Setting(k, v)
            } else {
                LineKind::Malformed
            },
            None => LineKind::Malformed,
        }
    }
}

/// The path that a key names: its dot-separated parts.
pub open spec fn key_path(key: Seq<char>) -> KeyPath {
    split_on(key, '.')
}

/// The settings `m` once the line `line`, numbered `number`, is read: the
/// error `(number, line)` for a malformed line.
pub open spec fn settings_after_line(m: Map<KeyPath, Scalar>, line: Seq<char>, number: int) -> Result<
    Map<KeyPath, Scalar>,
    (int, Seq<char>),
> {
    match classify_line(line) {
        LineKind::Blank => Ok(m),
        LineKind::Setting(k, v) => Ok(insert_leaf(m, key_path(k), Scalar::Text(v))),
        LineKind::Malformed => Err((number, line)),
    }
}

/// The settings that the lines `ls` build, numbered from one, or the error
/// of the first malformed line.
pub open spec fn settings_of_lines(ls: Seq<Seq<char>>) -> Result<Map<KeyPath, Scalar>, (int, Seq<char>)>
    decreases ls.len(),
{
    if ls.len() == 0 {
        Ok(Map::empty())
    } else {
        match settings_of_lines(ls.drop_last()) {
            Err(e) => Err(e),
            Ok(m) => settings_after_line(m, ls.last(), ls.len() as int),
        }
    }
}

/// The settings that a configuration text builds, or the error of its first
/// malformed line.
pub open spec fn settings_of_text(s: Seq<char>) -> Result<Map<KeyPath, Scalar>, (int, Seq<char>)> {
    settings_of_lines(lines(s))
}

/// A line of `cs`, as bounds into it.
pub(crate) enum LineParts {
    Blank,
    Setting(usize, usize, usize, usize),
    Malformed,
}

/// How the line `cs[lo..hi]` reads, as bounds into `cs`.
pub(crate) fn classify_bounds(cs: &[char], lo: usize, hi: usize) -> (r: LineParts)
    requires
        lo <= hi <= cs@.len(),
    ensures
        match r {
            LineParts::Blank => classify_line(cs@.subrange(lo as int, hi as int)) == LineKind::Blank,
            LineParts::Setting(ka, kb, va, vb) => ka <= kb <= cs@.len() && va <= vb <= cs@.len()
                && classify_line(cs@.subrange(lo as int, hi as int)) == LineKind::Setting(
                cs@.subrange(ka as int, kb as int),
                cs@.subrange(va as int, vb as int),
            ),
            LineParts::Malformed => classify_line(cs@.subrange(lo as int, hi as int))
                == LineKind::Malformed,
        },
{
    let ghost line = cs@.subrange(lo as int, hi as int);
    let (a, b) = trim_bounds(cs, lo, hi);
    let ghost t = trim(line);
    if a == b || cs[a] == '#' || cs[a] == ';' {
        return LineParts::Blank;
    }
    assert(t[0] == cs@[a as int]);
    let a2 = if cs[a] == '-' {
        a + 1
    } else {
        a
    };
    assert(cs@.subrange(a2 as int, b as int) == (if t[0] == '-' {
        t.drop_first()
    } else {
        t
    })) by {
        if t[0] == '-' {
            assert(cs@.subrange(a2 as int, b as int) =~= t.drop_first());
        }
    }
    let a3 = skip_white_space(cs, a2, b);
    let ghost r = cs@.subrange(a3 as int, b as int);
    match find_char(cs, a3, b, '=') {
        Some(i) => {
            assert(r.take(i - a3) =~= cs@.subrange(a3 as int, i as int));
            assert(r.skip(i - a3 + 1) =~= cs@.subrange(i + 1, b as int));
            let (ka, kb) = trim_bounds(cs, a3, i);
            let (va, vb) = trim_bounds(cs, i + 1, b);
            if ka < kb && va < vb {
                LineParts::Setting(ka, kb, va, vb)
            } else {
                LineParts::Malformed
            }
        },
        None => match find_white_space(cs, a3, b) {
            Some(j) => {
                assert(r.take(j - a3) =~= cs@.subrange(a3 as int, j as int));
                assert(r.skip(j - a3) =~= cs@.subrange(j as int, b as int));
                let (va, vb) = trim_bounds(cs, j, b);
                if a3 < j && va < vb {
                    LineParts::Setting(a3, j, va, vb)
                } else {
                    LineParts::Malformed
                }
            },
            None => LineParts::Malformed,
        },
    }
}

/// The dot-separated parts of the key `cs[lo..hi]`.
pub(crate) fn split_key(cs: &[char], lo: usize, hi: usize) -> (parts: Vec<String>)
    requires
        lo <= hi <= cs@.len(),
    ensures
        path_of(parts@) == key_path(cs@.subrange(lo as int, hi as int)),
        parts@.len() > 0,
{
    let mut parts: Vec<String> = Vec::new();
    let mut start = lo;
    let mut i = lo;
    assert(cs@.subrange(lo as int, lo as int) =~= Seq::<char>::empty());
    assert(path_of(parts@).push(cs@.subrange(start as int, i as int)) =~= seq![Seq::<char>::empty()]);
    while i < hi
        invariant
            lo <= start <= i <= hi,
            hi <= cs@.len(),
            path_of(parts@).push(cs@.subrange(start as int, i as int)) == split_on(
                cs@.subrange(lo as int, i as int),
                '.',
            ),
        decreases hi - i,
    {
        let ghost before = split_on(cs@.subrange(lo as int, i as int), '.');
        assert(cs@.subrange(lo as int, i + 1).drop_last() =~= cs@.subrange(lo as int, i as int));
        assert(cs@.subrange(lo as int, i + 1).last() == cs@[i as int]);
        if cs[i] == '.' {
            let piece = text_between(cs, start, i);
            parts.push(piece);
            start = i + 1;
            assert(path_of(parts@) =~= before);
            assert(cs@.subrange(start as int, i + 1) =~= Seq::<char>::empty());
            assert(path_of(parts@).push(cs@.subrange(start as int, i + 1)) =~= before.push(
                Seq::empty(),
            ));
        } else {
            assert(before.last() == cs@.subrange(start as int, i as int));
            assert(cs@.subrange(start as int, i + 1) =~= cs@.subrange(start as int, i as int).push(
                cs@[i as int],
            ));
            assert(path_of(parts@).push(cs@.subrange(start as int, i + 1)) =~= before.update(
                before.len() - 1,
                before.last().push(cs@[i as int]),
            ));
        }
        i = i + 1;
    }
    let last = text_between(cs, start, hi);
    let ghost before = path_of(parts@);
    parts.push(last);
    assert(path_of(parts@) =~= before.push(last@));
    parts
}

/// Reads one configuration line, numbered `line_number`: its key and value,
/// `None` for a blank line, or the error that reports it.
pub(crate) fn parse_line(line: &str, line_number: usize) -> (r: Result<
    Option<(String, String)>,
    ParseError,
>)
    ensures
        match classify_line(line@) {
            LineKind::Blank => r matches Ok(None),
            LineKind::Setting(k, v) => r matches Ok(Some((key, value))) && key@ == k && value@ == v,
            LineKind::Malformed => r matches Err(e) && e@ == (line_number as int, line@),
        },
{
    let cs = chars_of(line);
    assert(cs@.subrange(0, cs@.len() as int) =~= line@);
    match classify_bounds(cs.as_slice(), 0, cs.len()) {
        LineParts::Blank => Ok(None),
        LineParts::Setting(ka, kb, va, vb) => Ok(
            Some((text_between(cs.as_slice(), ka, kb), text_between(cs.as_slice(), va, vb))),
        ),
        LineParts::Malformed => Err(ParseError::new(line_number, line.to_owned())),
    }
}

impl SysctlMap {
    /// Stores `value` at the path that the dotted key `key` names.
    pub(crate) fn insert_nested(&mut self, key: &str, value: SysctlValue)
        requires
            old(self).wf(),
            value.scalar() is Some,
        ensures
            final(self).wf(),
            final(self)@ == insert_leaf(old(self)@, key_path(key@), value.scalar().unwrap()),
    {
        let cs = chars_of(key);
        assert(cs@.subrange(0, cs@.len() as int) =~= key@);
        let parts = split_key(cs.as_slice(), 0, cs.len());
        assert(path_of(parts@).skip(0) =~= path_of(parts@));
        self.insert_path(&parts, 0, value);
    }

    /// Reads one configuration line, numbered `number` from one: stores its
    /// setting, if it holds one, or reports it as malformed and changes
    /// nothing.
    pub fn read_line(&mut self, line: &str, number: usize) -> (r: Result<(), ParseError>)
        requires
            old(self).wf(),
        ensures
            final(self).wf(),
            match settings_after_line(old(self)@, line@, number as int) {
                Ok(m) => r is Ok && final(self)@ == m,
                Err(e) => r matches Err(err) && err@ == e && final(self)@ == old(self)@,
            },
    {
        match parse_line(line, number) {
            Ok(None) => Ok(()),
            Ok(Some((key, value))) => {
                self.insert_nested(key.as_str(), SysctlValue::Text(value));
                Ok(())
            },
            Err(e) => Err(e),
        }
    }
}

/// Parses a UTF-8 string containing sysctl configuration.
pub fn parse_str(input: &str) -> (r: Result<SysctlMap, ParseError>)
    ensures
        match settings_of_text(input@) {
            Ok(m) => r matches Ok(map) && map.wf() && map@ == m,
            Err(e) => r matches Err(err) && err@ == e,
        },
{
    let cs = chars_of(input);
    let bounds = line_bounds(cs.as_slice());
    let ghost ls = lines(cs@);
    let mut map = SysctlMap::new();
    let mut k: usize = 0;
    assert(ls.take(0) =~= Seq::<Seq<char>>::empty());
    while k < bounds.len()
        invariant
            k <= bounds@.len(),
            bounds@.len() == ls.len(),
            ls == lines(cs@),
            cs@ == input@,
            forall|j: int|
                0 <= j < bounds@.len() ==> #[trigger] bounds@[j].0 <= bounds@[j].1 <= cs@.len()
                    && cs@.subrange(bounds@[j].0 as int, bounds@[j].1 as int) == ls[j],
            map.wf(),
            settings_of_lines(ls.take(k as int)) == Ok::<Map<KeyPath, Scalar>, (int, Seq<char>)>(map@),
        decreases bounds@.len() - k,
    {
        let (lo, hi) = bounds[k];
        assert(ls.take(k + 1).drop_last() =~= ls.take(k as int));
        assert(ls.take(k + 1).last() == ls[k as int]);
        let line = text_between(cs.as_slice(), lo, hi);
        let res = map.read_line(line.as_str(), k + 1);
        if let Err(e) = res {
            proof {
                lemma_settings_of_lines_stop(ls, k + 1);
            }
            return Err(e);
        }
        k = k + 1;
    }
    assert(ls.take(k as int) =~= ls);
    Ok(map)
}

/// Reading stops at the first malformed line.
pub proof fn lemma_settings_of_lines_stop(ls: Seq<Seq<char>>, k: int)
    requires
        0 <= k <= ls.len(),
        settings_of_lines(ls.take(k)) is Err,
    ensures
        settings_of_lines(ls) == settings_of_lines(ls.take(k)),
    decreases ls.len() - k,
{
    if k < ls.len() {
        assert(ls.take(k + 1).drop_last() =~= ls.take(k));
        lemma_settings_of_lines_stop(ls, k + 1);
    } else {
        assert(ls.take(k) =~= ls);
    }
}

/// A setting read after others holds its value, whatever was read before.
pub proof fn lemma_later_setting_wins(ls: Seq<Seq<char>>, line: Seq<char>, k: Seq<char>, v: Seq<char>)
    requires
        settings_of_lines(ls) is Ok,
        classify_line(line) == LineKind::Setting(k, v),
    ensures
        settings_of_lines(ls.push(line)) matches Ok(m) && m.contains_key(key_path(k)) && m[key_path(k)]
            == Scalar::Text(v),
{
    assert(ls.push(line).drop_last() =~= ls);
}

/// Setting a key twice in a row leaves the same settings as setting it only
/// the second time.
pub proof fn lemma_redefinition_replaces(
    ls: Seq<Seq<char>>,
    first: Seq<char>,
    second: Seq<char>,
    k: Seq<char>,
    v1: Seq<char>,
    v2: Seq<char>,
)
    requires
        settings_of_lines(ls) is Ok,
        classify_line(first) == LineKind::Setting(k, v1),
        classify_line(second) == LineKind::Setting(k, v2),
    ensures
        settings_of_lines(ls.push(first).push(second)) is Ok,
        settings_of_lines(ls.push(first).push(second)) == settings_of_lines(ls.push(second)),
{
    assert(ls.push(first).drop_last() =~= ls);
    assert(ls.push(first).push(second).drop_last() =~= ls.push(first));
    assert(ls.push(second).drop_last() =~= ls);
    let m = settings_of_lines(ls)->Ok_0;
    let once = insert_leaf(m, key_path(k), Scalar::Text(v1));
    assert(settings_of_lines(ls.push(first)) == Ok::<Map<KeyPath, Scalar>, (int, Seq<char>)>(once));
    assert(settings_of_lines(ls.push(first).push(second)) == Ok::<Map<KeyPath, Scalar>, (int, Seq<char>)>(
        insert_leaf(once, key_path(k), Scalar::Text(v2)),
    ));
    crate::settings::lemma_insert_overwrites(m, key_path(k), Scalar::Text(v1), Scalar::Text(v2));
}

/// Blank lines and comments change nothing.
pub proof fn lemma_blank_line_changes_nothing(ls: Seq<Seq<char>>, line: Seq<char>)
    requires
        trim(line).len() == 0 || trim(line)[0] == '#' || trim(line)[0] == ';',
    ensures
        settings_of_lines(ls.push(line)) == settings_of_lines(ls),
{
    assert(ls.push(line).drop_last() =~= ls);
}

/// No part of a key path holds a dot.
pub open spec fn dot_free(p: KeyPath) -> bool {
    forall|i: int| 0 <= i < p.len() ==> !(#[trigger] p[i]).contains('.')
}

/// The parts of a key hold no dot.
pub proof fn lemma_key_path_dot_free(key: Seq<char>)
    ensures
        dot_free(key_path(key)),
        key_path(key).len() > 0,
    decreases key.len(),
{
    lemma_split_on_len(key, '.');
    if key.len() > 0 {
        lemma_key_path_dot_free(key.drop_last());
        let pieces = split_on(key.drop_last(), '.');
        if key.last() != '.' {
            let last = pieces.last().push(key.last());
            assert forall|j: int| 0 <= j < last.len() implies last[j] != '.' by {
                if j < pieces.last().len() {
                    assert(last[j] == pieces.last()[j]);
                    assert(!pieces[pieces.len() - 1].contains('.'));
                    if last[j] == '.' {
                        assert(pieces.last().contains('.'));
                    }
                }
            }
            assert(!last.contains('.'));
            let r = key_path(key);
            assert forall|i: int| 0 <= i < r.len() implies !(#[trigger] r[i]).contains('.') by {
                if i < r.len() - 1 {
                    assert(r[i] == pieces[i]);
                }
            }
        } else {
            let r = key_path(key);
            assert forall|i: int| 0 <= i < r.len() implies !(#[trigger] r[i]).contains('.') by {
                if i < r.len() - 1 {
                    assert(r[i] == pieces[i]);
                } else {
                    assert(r[i] =~= Seq::<char>::empty());
                }
            }
        }
    }
}

/// Every path in `m` is dot free.
pub open spec fn all_dot_free(m: Map<KeyPath, Scalar>) -> bool {
    forall|p: KeyPath| #[trigger] m.contains_key(p) ==> dot_free(p)
}

/// Dotted keys build nested tables: whatever a configuration reads to, no
/// part of any of its paths holds a dot, and no setting lies below another.
pub proof fn lemma_settings_shape(ls: Seq<Seq<char>>)
    ensures
        settings_of_lines(ls) matches Ok(m) ==> all_dot_free(m) && crate::settings::prefix_free(m),
    decreases ls.len(),
{
    if ls.len() > 0 {
        lemma_settings_shape(ls.drop_last());
        if let Ok(m0) = settings_of_lines(ls.drop_last()) {
            if let LineKind::Setting(k, v) = classify_line(ls.last()) {
                lemma_key_path_dot_free(k);
                crate::settings::lemma_insert_prefix_free(m0, key_path(k), Scalar::Text(v));
            }
        }
    } else {
        assert(crate::settings::prefix_free(Map::<KeyPath, Scalar>::empty()));
    }
}

/// `later` is `r` with any error moved one line down.
pub open spec fn one_line_later(
    later: Result<Map<KeyPath, Scalar>, (int, Seq<char>)>,
    r: Result<Map<KeyPath, Scalar>, (int, Seq<char>)>,
) -> bool {
    match r {
        Ok(m) => later == Ok::<Map<KeyPath, Scalar>, (int, Seq<char>)>(m),
        Err((n, c)) => later == Err::<Map<KeyPath, Scalar>, (int, Seq<char>)>((n + 1, c)),
    }
}

/// A blank line or a comment in front of other lines leaves their settings
/// as they are and moves an error one line down.
pub proof fn lemma_blank_first_line(l: Seq<char>, ls: Seq<Seq<char>>)
    requires
        classify_line(l) == LineKind::Blank,
    ensures
        one_line_later(settings_of_lines(seq![l] + ls), settings_of_lines(ls)),
    decreases ls.len(),
{
    let a = seq![l] + ls;
    if ls.len() == 0 {
        assert(a =~= seq![l]);
        assert(a.drop_last() =~= Seq::<Seq<char>>::empty());
        assert(settings_of_lines(a.drop_last()) == Ok::<Map<KeyPath, Scalar>, (int, Seq<char>)>(
            Map::empty(),
        ));
        assert(a.last() == l);
        assert(settings_of_lines(a) == Ok::<Map<KeyPath, Scalar>, (int, Seq<char>)>(Map::empty()));
    } else {
        lemma_blank_first_line(l, ls.drop_last());
        assert(a.drop_last() =~= seq![l] + ls.drop_last());
        assert(a.last() == ls.last());
        assert(a.len() == ls.len() + 1);
        match settings_of_lines(ls.drop_last()) {
            Ok(m) => {
                assert(settings_of_lines(a.drop_last()) == Ok::<
                    Map<KeyPath, Scalar>,
                    (int, Seq<char>),
                >(m));
                assert(settings_of_lines(a) == settings_after_line(m, ls.last(), ls.len() + 1int));
                assert(settings_of_lines(ls) == settings_after_line(m, ls.last(), ls.len() as int));
            },
            Err((n, c)) => {
                assert(settings_of_lines(a.drop_last()) == Err::<
                    Map<KeyPath, Scalar>,
                    (int, Seq<char>),
                >((n + 1, c)));
            },
        }
    }
}

/// A first line that is blank or a comment, followed by any text, leaves
/// the settings of that text as they are and moves an error one line down.
pub proof fn lemma_blank_first_line_of_text(c: Seq<char>, s: Seq<char>)
    requires
        !c.contains('\n'),
        trim(c).len() == 0 || trim(c)[0] == '#' || trim(c)[0] == ';',
    ensures
        one_line_later(settings_of_text(c.push('\n') + s), settings_of_text(s)),
{
    lemma_lines_prepend(c, s);
    lemma_trim_strip_cr(c);
    lemma_blank_first_line(strip_cr(c), lines(s));
}

/// A setting added as the last line of a text holds its value, whatever the
/// text set before.
pub proof fn lemma_later_setting_wins_in_text(s: Seq<char>, l: Seq<char>, k: Seq<char>, v: Seq<char>)
    requires
        s.len() == 0 || s.last() == '\n',
        !l.contains('\n'),
        classify_line(l) == LineKind::Setting(k, v),
        settings_of_text(s) is Ok,
    ensures
        settings_of_text(s + l.push('\n')) matches Ok(m) && m.contains_key(key_path(k))
            && m[key_path(k)] == Scalar::Text(v),
{
    lemma_lines_append(s, l);
    lemma_trim_strip_cr(l);
    lemma_later_setting_wins(lines(s), strip_cr(l), k, v);
}

/// A line that reads `key = value` is the setting `(key, value)`: the key
/// and the value are split at the `=`, with or without white space around
/// either of them, provided the key holds no `=`, does not start a comment or
/// the `-` prefix, and neither key nor value starts or ends with white space.
pub proof fn lemma_equals_line(
    w0: Seq<char>,
    k: Seq<char>,
    w1: Seq<char>,
    w2: Seq<char>,
    v: Seq<char>,
    w3: Seq<char>,
)
    requires
        all_white(w0),
        all_white(w1),
        all_white(w2),
        all_white(w3),
        k.len() > 0,
        v.len() > 0,
        !is_white_space(k[0]),
        !is_white_space(k.last()),
        !is_white_space(v[0]),
        !is_white_space(v.last()),
        !k.contains('='),
        k[0] != '#' && k[0] != ';' && k[0] != '-',
    ensures
        classify_line(w0 + k + w1 + seq!['='] + w2 + v + w3) == LineKind::Setting(k, v),
{
    let t = k + w1 + seq!['='] + w2 + v;
    assert(w0 + k + w1 + seq!['='] + w2 + v + w3 =~= w0 + t + w3);
    assert(t[0] == k[0]);
    assert(t.last() == v.last());
    lemma_trim_padded(w0, t, w3);
    let i = (k.len() + w1.len()) as int;
    assert(t[i] == '=');
    assert forall|j: int| 0 <= j < i implies !equals('=')(#[trigger] t[j]) by {
        if j < k.len() {
            assert(t[j] == k[j]);
        } else {
            assert(t[j] == w1[j - k.len()]);
            assert(is_white_space(w1[j - k.len()]));
        }
    }
    lemma_first_index_found(t, equals('='), i);
    let e = Seq::<char>::empty();
    assert(t.take(i) =~= e + k + w1);
    assert(all_white(e));
    lemma_trim_padded(e, k, w1);
    assert(t.skip(i + 1) =~= w2 + v + e);
    lemma_trim_padded(w2, v, e);
}

/// The `-` prefix, which asks sysctl to ignore errors of the setting, changes
/// nothing but itself: a line that reads the same without it reads the same
/// with it, whether it sets a value or is malformed.
pub proof fn lemma_dash_prefix(t: Seq<char>)
    requires
        trim(t).len() > 0,
        trim(t)[0] != '-' && trim(t)[0] != '#' && trim(t)[0] != ';',
    ensures
        classify_line(seq!['-'] + t) == classify_line(t),
{
    let dt = seq!['-'] + t;
    assert(dt[0] == '-');
    assert(trim_start(dt) == dt);
    lemma_trim_end_cons('-', t);
    let t2 = trim(dt);
    assert(t2 == seq!['-'] + trim_end(t));
    assert(t2[0] == '-');
    assert(t2.drop_first() =~= trim_end(t));
    lemma_trim_commutes(t);
    lemma_trim_start_first(trim_end(t));
    assert(trim_start(trim(t)) == trim(t));
}

} // verus!
