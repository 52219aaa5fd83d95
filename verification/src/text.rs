//! Character-level building blocks of the configuration grammar: white
//! space, trimming, searching, splitting and line breaking, each stated over
//! `Seq<char>` and implemented over index ranges of a `[char]` slice.

use vstd::prelude::*;

verus! {

/// The characters with the Unicode `White_Space` property.
pub open spec fn is_white_space(c: char) -> bool {
    ||| ('\u{9}' <= c && c <= '\u{d}')
    ||| c == ' '
    ||| c == '\u{85}'
    ||| c == '\u{a0}'
    ||| c == '\u{1680}'
    ||| ('\u{2000}' <= c && c <= '\u{200a}')
    ||| c == '\u{2028}'
    ||| c == '\u{2029}'
    ||| c == '\u{202f}'
    ||| c == '\u{205f}'
    ||| c == '\u{3000}'
}

/// The predicate "is white space", as a value.
pub open spec fn white() -> spec_fn(char) -> bool {
    |c: char| is_white_space(c)
}

/// The predicate "equals `c`", as a value.
pub open spec fn equals(c: char) -> spec_fn(char) -> bool {
    |x: char| x == c
}

/// `s` without its leading white space.
pub open spec fn trim_start(s: Seq<char>) -> Seq<char>
    decreases s.len(),
{
    if s.len() > 0 && is_white_space(s[0]) {
        trim_start(s.drop_first())
    } else {
        s
    }
}

/// `s` without its trailing white space.
pub open spec fn trim_end(s: Seq<char>) -> Seq<char>
    decreases s.len(),
{
    if s.len() > 0 && is_white_space(s.last()) {
        trim_end(s.drop_last())
    } else {
        s
    }
}

/// `s` without leading and trailing white space.
pub open spec fn trim(s: Seq<char>) -> Seq<char> {
    trim_end(trim_start(s))
}

/// The index of the first character of `s` that satisfies `f`, if any.
pub open spec fn first_index(s: Seq<char>, f: spec_fn(char) -> bool) -> Option<int>
    decreases s.len(),
{
    if s.len() == 0 {
        None
    } else if f(s[0]) {
        Some(0)
    } else {
        match first_index(s.drop_first(), f) {
            Some(i) => Some(i + 1),
            None => None,
        }
    }
}

/// The pieces of `s` between the occurrences of `c`, in order; `c` itself
/// belongs to no piece, and there is always one piece more than there are
/// occurrences of `c`.
pub open spec fn split_on(s: Seq<char>, c: char) -> Seq<Seq<char>>
    decreases s.len(),
{
    if s.len() == 0 {
        seq![Seq::empty()]
    } else {
        let pieces = split_on(s.drop_last(), c);
        if s.last() == c {
            pieces.push(Seq::empty())
        } else {
            pieces.update(pieces.len() - 1, pieces.last().push(s.last()))
        }
    }
}

/// `p` without one carriage return at its end.
pub open spec fn strip_cr(p: Seq<char>) -> Seq<char> {
    if p.len() > 0 && p.last() == '\r' {
        p.drop_last()
    } else {
        p
    }
}

/// The lines of a text, as `BufRead::lines` gives them: the pieces between
/// line feeds, where a final line feed ends the last line rather than
/// starting an empty one, and a line that a line feed ends loses one carriage
/// return before it.
pub open spec fn lines(s: Seq<char>) -> Seq<Seq<char>> {
    let pieces = split_on(s, '\n');
    let ended = pieces.drop_last().map_values(|p: Seq<char>| strip_cr(p));
    if pieces.last().len() == 0 {
        ended
    } else {
        ended.push(pieces.last())
    }
}

pub proof fn lemma_first_index(s: Seq<char>, f: spec_fn(char) -> bool)
    ensures
        match first_index(s, f) {
            Some(i) => 0 <= i < s.len() && f(s[i]) && forall|j: int| 0 <= j < i ==> !f(#[trigger] s[j]),
            None => forall|j: int| 0 <= j < s.len() ==> !f(#[trigger] s[j]),
        },
    decreases s.len(),
{
    if s.len() > 0 && !f(s[0]) {
        lemma_first_index(s.drop_first(), f);
        assert forall|j: int| 0 < j < s.len() implies s[j] == s.drop_first()[j - 1] by {}
        match first_index(s.drop_first(), f) {
            Some(i) => {
                assert forall|j: int| 0 <= j < i + 1 implies !f(#[trigger] s[j]) by {
                    if j > 0 {
                        assert(s[j] == s.drop_first()[j - 1]);
                    }
                }
            },
            None => {
                assert forall|j: int| 0 <= j < s.len() implies !f(#[trigger] s[j]) by {
                    if j > 0 {
                        assert(s[j] == s.drop_first()[j - 1]);
                    }
                }
            },
        }
    }
}

/// A first index found by a search is the one `first_index` names.
pub proof fn lemma_first_index_found(s: Seq<char>, f: spec_fn(char) -> bool, i: int)
    requires
        0 <= i < s.len(),
        f(s[i]),
        forall|j: int| 0 <= j < i ==> !f(#[trigger] s[j]),
    ensures
        first_index(s, f) == Some(i),
{
    lemma_first_index(s, f);
    match first_index(s, f) {
        Some(k) => {
            if k < i {
                assert(!f(s[k]));
            } else if k > i {
                assert(!f(s[i]));
            }
        },
        None => {
            assert(!f(s[i]));
        },
    }
}

pub proof fn lemma_first_index_absent(s: Seq<char>, f: spec_fn(char) -> bool)
    requires
        forall|j: int| 0 <= j < s.len() ==> !f(#[trigger] s[j]),
    ensures
        first_index(s, f) is None,
{
    lemma_first_index(s, f);
    if let Some(k) = first_index(s, f) {
        assert(f(s[k]));
    }
}

pub proof fn lemma_split_on_len(s: Seq<char>, c: char)
    ensures
        split_on(s, c).len() >= 1,
    decreases s.len(),
{
    if s.len() > 0 {
        lemma_split_on_len(s.drop_last(), c);
    }
}

/// Splitting at a separator splits the text before it and the text after
/// it apart.
pub proof fn lemma_split_on_join(a: Seq<char>, c: char, b: Seq<char>)
    ensures
        split_on(a.push(c) + b, c) == split_on(a, c) + split_on(b, c),
    decreases b.len(),
{
    lemma_split_on_len(a, c);
    lemma_split_on_len(b, c);
    if b.len() == 0 {
        assert(a.push(c) + b =~= a.push(c));
        assert(a.push(c).drop_last() =~= a);
        assert(split_on(a, c).push(Seq::empty()) =~= split_on(a, c) + seq![Seq::<char>::empty()]);
    } else {
        let b2 = b.drop_last();
        let x = b.last();
        lemma_split_on_join(a, c, b2);
        lemma_split_on_len(b2, c);
        assert((a.push(c) + b).drop_last() =~= a.push(c) + b2);
        assert((a.push(c) + b).last() == x);
        let p = split_on(a, c);
        let q = split_on(b2, c);
        if x == c {
            assert((p + q).push(Seq::empty()) =~= p + q.push(Seq::empty()));
        } else {
            assert((p + q).update((p + q).len() - 1, (p + q).last().push(x)) =~= p + q.update(
                q.len() - 1,
                q.last().push(x),
            ));
        }
    }
}

/// A text without the separator is one piece.
pub proof fn lemma_split_on_whole(a: Seq<char>, c: char)
    requires
        !a.contains(c),
    ensures
        split_on(a, c) == seq![a],
    decreases a.len(),
{
    if a.len() > 0 {
        assert(!a.drop_last().contains(c)) by {
            if a.drop_last().contains(c) {
                let i = choose|i: int| 0 <= i < a.drop_last().len() && a.drop_last()[i] == c;
                assert(a[i] == c);
            }
        }
        lemma_split_on_whole(a.drop_last(), c);
        assert(a.last() != c) by {
            assert(a[a.len() - 1] == a.last());
        }
        assert(a.drop_last().push(a.last()) =~= a);
    } else {
        assert(a =~= Seq::<char>::empty());
    }
}

/// A line followed by a line feed is the first line of the text it starts.
pub proof fn lemma_lines_prepend(c: Seq<char>, s: Seq<char>)
    requires
        !c.contains('\n'),
    ensures
        lines(c.push('\n') + s) == seq![strip_cr(c)] + lines(s),
{
    lemma_split_on_join(c, '\n', s);
    lemma_split_on_whole(c, '\n');
    lemma_split_on_len(s, '\n');
    let ps = split_on(s, '\n');
    let all = seq![c] + ps;
    assert(all.drop_last() =~= seq![c] + ps.drop_last());
    assert(all.last() == ps.last());
    let f = |p: Seq<char>| strip_cr(p);
    assert((seq![c] + ps.drop_last()).map_values(f) =~= seq![strip_cr(c)] + ps.drop_last().map_values(
        f,
    ));
    assert((seq![strip_cr(c)] + ps.drop_last().map_values(f)).push(ps.last()) =~= seq![strip_cr(c)]
        + ps.drop_last().map_values(f).push(ps.last()));
}

/// A line and a line feed added to a text that is empty or ends with a line
/// feed become its last line.
pub proof fn lemma_lines_append(s: Seq<char>, l: Seq<char>)
    requires
        s.len() == 0 || s.last() == '\n',
        !l.contains('\n'),
    ensures
        lines(s + l.push('\n')) == lines(s).push(strip_cr(l)),
{
    let e = Seq::<char>::empty();
    lemma_split_on_whole(l, '\n');
    lemma_split_on_join(l, '\n', e);
    assert(l.push('\n') + e =~= l.push('\n'));
    let f = |p: Seq<char>| strip_cr(p);
    if s.len() == 0 {
        assert(s + l.push('\n') =~= l.push('\n'));
        assert(split_on(l.push('\n'), '\n') =~= seq![l, e]);
        assert(seq![l, e].drop_last() =~= seq![l]);
        assert(seq![l].map_values(f) =~= seq![strip_cr(l)]);
        assert(lines(s) =~= Seq::<Seq<char>>::empty());
    } else {
        let s0 = s.drop_last();
        assert(s0.push('\n') =~= s);
        lemma_split_on_join(s0, '\n', e);
        assert(s0.push('\n') + e =~= s);
        lemma_split_on_join(s0, '\n', l.push('\n'));
        assert(s0.push('\n') + l.push('\n') =~= s + l.push('\n'));
        let p0 = split_on(s0, '\n');
        assert(split_on(s, '\n') =~= p0.push(e));
        assert(split_on(s + l.push('\n'), '\n') =~= p0 + seq![l, e]);
        assert((p0 + seq![l, e]).drop_last() =~= p0.push(l));
        assert(p0.push(e).drop_last() =~= p0);
        assert(p0.push(l).map_values(f) =~= p0.map_values(f).push(strip_cr(l)));
    }
}

/// Trimming a line ignores white space added at its end.
pub proof fn lemma_trim_start_push_white(d: Seq<char>, w: char)
    requires
        is_white_space(w),
    ensures
        trim_start(d.push(w)) == if trim_start(d).len() == 0 {
            Seq::<char>::empty()
        } else {
            trim_start(d).push(w)
        },
    decreases d.len(),
{
    assert(d.push(w)[0] == if d.len() == 0 {
        w
    } else {
        d[0]
    });
    if d.len() == 0 {
        assert(d.push(w).drop_first() =~= Seq::<char>::empty());
        assert(trim_start(Seq::<char>::empty()) == Seq::<char>::empty());
    } else if is_white_space(d[0]) {
        assert(d.push(w).drop_first() =~= d.drop_first().push(w));
        lemma_trim_start_push_white(d.drop_first(), w);
    }
}

/// A carriage return at the end of a line makes no difference once the line
/// is trimmed.
pub proof fn lemma_trim_strip_cr(c: Seq<char>)
    ensures
        trim(strip_cr(c)) == trim(c),
{
    if c.len() > 0 && c.last() == '\r' {
        let d = c.drop_last();
        assert(d.push('\r') =~= c);
        lemma_trim_start_push_white(d, '\r');
        if trim_start(d).len() > 0 {
            assert(trim_start(d).push('\r').drop_last() =~= trim_start(d));
        }
    }
}

/// Every character of `w` is white space.
pub open spec fn all_white(w: Seq<char>) -> bool {
    forall|i: int| 0 <= i < w.len() ==> is_white_space(#[trigger] w[i])
}

/// White space in front of a text is dropped by `trim_start`.
pub proof fn lemma_trim_start_white_prefix(w: Seq<char>, x: Seq<char>)
    requires
        all_white(w),
    ensures
        trim_start(w + x) == trim_start(x),
    decreases w.len(),
{
    if w.len() > 0 {
        assert((w + x)[0] == w[0]);
        assert((w + x).drop_first() =~= w.drop_first() + x);
        assert forall|i: int| 0 <= i < w.drop_first().len() implies is_white_space(
            #[trigger] w.drop_first()[i],
        ) by {
            assert(w.drop_first()[i] == w[i + 1]);
        }
        lemma_trim_start_white_prefix(w.drop_first(), x);
    } else {
        assert(w + x =~= x);
    }
}

/// White space after a text is dropped by `trim_end`.
pub proof fn lemma_trim_end_white_suffix(x: Seq<char>, w: Seq<char>)
    requires
        all_white(w),
    ensures
        trim_end(x + w) == trim_end(x),
    decreases w.len(),
{
    if w.len() > 0 {
        assert((x + w).last() == w.last());
        assert(is_white_space(w[w.len() - 1]));
        assert((x + w).drop_last() =~= x + w.drop_last());
        assert forall|i: int| 0 <= i < w.drop_last().len() implies is_white_space(
            #[trigger] w.drop_last()[i],
        ) by {
            assert(w.drop_last()[i] == w[i]);
        }
        lemma_trim_end_white_suffix(x, w.drop_last());
    } else {
        assert(x + w =~= x);
    }
}

/// A text whose first and last characters are not white space, with white
/// space around it, trims to itself.
pub proof fn lemma_trim_padded(w0: Seq<char>, x: Seq<char>, w1: Seq<char>)
    requires
        all_white(w0),
        all_white(w1),
        x.len() > 0,
        !is_white_space(x[0]),
        !is_white_space(x.last()),
    ensures
        trim(w0 + x + w1) == x,
        trim_start(x) == x,
{
    assert(w0 + x + w1 =~= w0 + (x + w1));
    lemma_trim_start_white_prefix(w0, x + w1);
    assert((x + w1)[0] == x[0]);
    lemma_trim_end_white_suffix(x, w1);
}

/// A character that is not white space in front of a text stays in front
/// of it when trailing white space is dropped.
pub proof fn lemma_trim_end_cons(c: char, t: Seq<char>)
    requires
        !is_white_space(c),
    ensures
        trim_end(seq![c] + t) == seq![c] + trim_end(t),
    decreases t.len(),
{
    let ct = seq![c] + t;
    if t.len() == 0 {
        assert(ct =~= seq![c]);
        assert(ct.last() == c);
        assert(seq![c] + t =~= seq![c]);
    } else {
        assert(ct.last() == t.last());
        assert(ct.drop_last() =~= seq![c] + t.drop_last());
        lemma_trim_end_cons(c, t.drop_last());
    }
}

/// A text that `trim_start` leaves nonempty starts with a character that is
/// not white space.
pub proof fn lemma_trim_start_first(x: Seq<char>)
    ensures
        trim_start(x).len() > 0 ==> !is_white_space(trim_start(x)[0]),
    decreases x.len(),
{
    if x.len() > 0 && is_white_space(x[0]) {
        lemma_trim_start_first(x.drop_first());
    }
}

/// A text that ends with a character that is not white space still ends
/// with it once leading white space is dropped.
pub proof fn lemma_trim_start_last(x: Seq<char>)
    requires
        x.len() > 0,
        !is_white_space(x.last()),
    ensures
        trim_start(x).len() > 0,
        trim_start(x).last() == x.last(),
    decreases x.len(),
{
    if is_white_space(x[0]) {
        assert(x.len() > 1);
        assert(x.drop_first().last() == x.last());
        lemma_trim_start_last(x.drop_first());
    }
}

/// Dropping leading and trailing white space can be done in either order.
pub proof fn lemma_trim_commutes(x: Seq<char>)
    ensures
        trim_start(trim_end(x)) == trim(x),
    decreases x.len(),
{
    if x.len() > 0 {
        if is_white_space(x.last()) {
            let d = x.drop_last();
            assert(d.push(x.last()) =~= x);
            lemma_trim_commutes(d);
            lemma_trim_start_push_white(d, x.last());
            if trim_start(d).len() > 0 {
                assert(trim_start(d).push(x.last()).drop_last() =~= trim_start(d));
            }
        } else {
            lemma_trim_start_last(x);
        }
    }
}

/// Whether `c` is white space (`char::is_whitespace`).
/// Trusted: `char::is_whitespace` is true exactly for the characters with the
/// Unicode `White_Space` property, which `is_white_space` lists.
#[verifier::external_body]
pub fn char_is_whitespace(c: char) -> (r: bool)
    ensures
        r == is_white_space(c),
{
    c.is_whitespace()
}

/// The first index in `lo..hi` at which `cs` holds no white space, or `hi`.
pub fn skip_white_space(cs: &[char], lo: usize, hi: usize) -> (a: usize)
    requires
        lo <= hi <= cs@.len(),
    ensures
        lo <= a <= hi,
        cs@.subrange(a as int, hi as int) == trim_start(cs@.subrange(lo as int, hi as int)),
{
    let mut a = lo;
    while a < hi && char_is_whitespace(cs[a])
        invariant
            lo <= a <= hi,
            hi <= cs@.len(),
            trim_start(cs@.subrange(lo as int, hi as int)) == trim_start(
                cs@.subrange(a as int, hi as int),
            ),
        decreases hi - a,
    {
        assert(cs@.subrange(a as int, hi as int).drop_first() =~= cs@.subrange(a + 1, hi as int));
        a = a + 1;
    }
    if a < hi {
        assert(cs@.subrange(a as int, hi as int)[0] == cs@[a as int]);
    }
    a
}

/// The end of `lo..hi` once trailing white space is dropped.
pub fn drop_trailing_white_space(cs: &[char], lo: usize, hi: usize) -> (b: usize)
    requires
        lo <= hi <= cs@.len(),
    ensures
        lo <= b <= hi,
        cs@.subrange(lo as int, b as int) == trim_end(cs@.subrange(lo as int, hi as int)),
{
    let mut b = hi;
    while b > lo && char_is_whitespace(cs[b - 1])
        invariant
            lo <= b <= hi,
            hi <= cs@.len(),
            trim_end(cs@.subrange(lo as int, hi as int)) == trim_end(
                cs@.subrange(lo as int, b as int),
            ),
        decreases b - lo,
    {
        assert(cs@.subrange(lo as int, b as int).drop_last() =~= cs@.subrange(lo as int, b - 1));
        b = b - 1;
    }
    b
}

/// The bounds of `lo..hi` once white space is dropped from both ends.
pub fn trim_bounds(cs: &[char], lo: usize, hi: usize) -> (r: (usize, usize))
    requires
        lo <= hi <= cs@.len(),
    ensures
        lo <= r.0 <= r.1 <= hi,
        cs@.subrange(r.0 as int, r.1 as int) == trim(cs@.subrange(lo as int, hi as int)),
{
    let a = skip_white_space(cs, lo, hi);
    let b = drop_trailing_white_space(cs, a, hi);
    (a, b)
}

/// The first index in `lo..hi` at which `cs` holds `c`.
pub fn find_char(cs: &[char], lo: usize, hi: usize, c: char) -> (r: Option<usize>)
    requires
        lo <= hi <= cs@.len(),
    ensures
        match r {
            Some(i) => lo <= i < hi && first_index(cs@.subrange(lo as int, hi as int), equals(c))
                == Some(i - lo),
            None => first_index(cs@.subrange(lo as int, hi as int), equals(c)) is None,
        },
{
    let ghost s = cs@.subrange(lo as int, hi as int);
    let mut i = lo;
    while i < hi
        invariant
            lo <= i <= hi,
            hi <= cs@.len(),
            s == cs@.subrange(lo as int, hi as int),
            forall|j: int| 0 <= j < i - lo ==> !equals(c)(#[trigger] s[j]),
        decreases hi - i,
    {
        if cs[i] == c {
            proof {
                lemma_first_index_found(s, equals(c), i - lo);
            }
            return Some(i);
        }
        i = i + 1;
    }
    proof {
        lemma_first_index_absent(s, equals(c));
    }
    None
}

/// The first index in `lo..hi` at which `cs` holds white space.
pub fn find_white_space(cs: &[char], lo: usize, hi: usize) -> (r: Option<usize>)
    requires
        lo <= hi <= cs@.len(),
    ensures
        match r {
            Some(i) => lo <= i < hi && first_index(cs@.subrange(lo as int, hi as int), white())
                == Some(i - lo),
            None => first_index(cs@.subrange(lo as int, hi as int), white()) is None,
        },
{
    let ghost s = cs@.subrange(lo as int, hi as int);
    let mut i = lo;
    while i < hi
        invariant
            lo <= i <= hi,
            hi <= cs@.len(),
            s == cs@.subrange(lo as int, hi as int),
            forall|j: int| 0 <= j < i - lo ==> !white()(#[trigger] s[j]),
        decreases hi - i,
    {
        if char_is_whitespace(cs[i]) {
            proof {
                lemma_first_index_found(s, white(), i - lo);
            }
            return Some(i);
        }
        i = i + 1;
    }
    proof {
        lemma_first_index_absent(s, white());
    }
    None
}

/// The bounds in `cs` of each of its lines.
pub fn line_bounds(cs: &[char]) -> (r: Vec<(usize, usize)>)
    ensures
        r@.len() == lines(cs@).len(),
        forall|k: int|
            0 <= k < r@.len() ==> #[trigger] r@[k].0 <= r@[k].1 <= cs@.len() && cs@.subrange(
                r@[k].0 as int,
                r@[k].1 as int,
            ) == lines(cs@)[k],
{
    let mut r: Vec<(usize, usize)> = Vec::new();
    let ghost mut done: Seq<Seq<char>> = seq![];
    let mut start: usize = 0;
    let mut i: usize = 0;
    assert(cs@.take(0) =~= Seq::<char>::empty());
    assert(done.push(cs@.subrange(0, 0)) =~= seq![Seq::<char>::empty()]);
    while i < cs.len()
        invariant
            start <= i <= cs@.len(),
            split_on(cs@.take(i as int), '\n') == done.push(cs@.subrange(start as int, i as int)),
            r@.len() == done.len(),
            forall|k: int|
                0 <= k < r@.len() ==> #[trigger] r@[k].0 <= r@[k].1 <= cs@.len() && cs@.subrange(
                    r@[k].0 as int,
                    r@[k].1 as int,
                ) == strip_cr(done[k]),
        decreases cs@.len() - i,
    {
        let ghost before = split_on(cs@.take(i as int), '\n');
        assert(cs@.take(i + 1).drop_last() =~= cs@.take(i as int));
        assert(cs@.take(i + 1).last() == cs@[i as int]);
        if cs[i] == '\n' {
            let ghost line = cs@.subrange(start as int, i as int);
            let end = if i > start && cs[i - 1] == '\r' {
                i - 1
            } else {
                i
            };
            assert(cs@.subrange(start as int, end as int) == strip_cr(line)) by {
                if end < i {
                    assert(cs@.subrange(start as int, end as int) =~= line.drop_last());
                }
            }
            r.push((start, end));
            proof {
                done = done.push(line);
            }
            start = i + 1;
            assert(cs@.subrange(start as int, i + 1) =~= Seq::<char>::empty());
            assert(done.push(cs@.subrange(start as int, i + 1)) =~= before.push(Seq::empty()));
        } else {
            assert(before.last() == cs@.subrange(start as int, i as int));
            assert(cs@.subrange(start as int, i + 1) =~= cs@.subrange(start as int, i as int).push(
                cs@[i as int],
            ));
            assert(done.push(cs@.subrange(start as int, i + 1)) =~= before.update(
                before.len() - 1,
                before.last().push(cs@[i as int]),
            ));
        }
        i = i + 1;
    }
    assert(cs@.take(cs@.len() as int) =~= cs@);
    let ghost last = cs@.subrange(start as int, cs@.len() as int);
    let ghost ended = done.map_values(|p: Seq<char>| strip_cr(p));
    assert(done.push(last).drop_last() =~= done);
    if start < cs.len() {
        r.push((start, cs.len()));
        assert(lines(cs@) == ended.push(last));
    } else {
        assert(lines(cs@) == ended);
    }
    assert forall|k: int| 0 <= k < r@.len() implies #[trigger] r@[k].0 <= r@[k].1 <= cs@.len()
        && cs@.subrange(r@[k].0 as int, r@[k].1 as int) == lines(cs@)[k] by {
        if k < done.len() {
            assert(lines(cs@)[k] == ended[k]);
        }
    }
    r
}

/// The characters of `s`, in order.
pub fn chars_of(s: &str) -> (r: Vec<char>)
    ensures
        r@ == s@,
{
    broadcast use vstd::string::group_string_axioms;

    let mut out: Vec<char> = Vec::new();
    for c in it: s.chars()
        invariant
            out@ == it.seq().take(it.index()),
            it.seq() == s@,
    {
        out.push(c);
    }
    assert(out@ =~= s@);
    out
}

/// A string made of the characters of `cs`, in order (`FromIterator<&char>`
/// for `String`).
/// Trusted: collecting characters into a `String` keeps each of them, in
/// order.
#[verifier::external_body]
pub fn string_from_chars(cs: &[char]) -> (r: String)
    ensures
        r@ == cs@,
{
    cs.iter().collect()
}

/// The characters of `cs` in `lo..hi` as a string.
pub fn text_between(cs: &[char], lo: usize, hi: usize) -> (r: String)
    requires
        lo <= hi <= cs@.len(),
    ensures
        r@ == cs@.subrange(lo as int, hi as int),
{
    string_from_chars(vstd::slice::slice_subrange(cs, lo, hi))
}

/// The decimal digit for `d`, which is below ten.
pub open spec fn digit_char(d: nat) -> char {
    (d + 48) as char
}

/// The decimal numeral of `n`, without leading zeros.
pub open spec fn decimal(n: nat) -> Seq<char>
    decreases n,
{
    if n < 10 {
        seq![digit_char(n)]
    } else {
        decimal(n / 10).push(digit_char(n % 10))
    }
}

/// The characters of the decimal numeral of `n`.
fn decimal_chars(n: usize) -> (r: Vec<char>)
    ensures
        r@ == decimal(n as nat),
    decreases n,
{
    let d = (n % 10) as u8;
    let c = (48u8 + d) as char;
    assert(c == digit_char((n % 10) as nat)) by {
        assert((48u8 + d) as char == ((n % 10) as nat + 48) as char);
    }
    if n < 10 {
        let mut r = Vec::new();
        r.push(c);
        assert(r@ =~= seq![c]);
        r
    } else {
        let mut r = decimal_chars(n / 10);
        r.push(c);
        r
    }
}

/// The decimal numeral of `n` (as `usize`'s `Display` writes it).
pub fn decimal_text(n: usize) -> (r: String)
    ensures
        r@ == decimal(n as nat),
{
    let cs = decimal_chars(n);
    string_from_chars(cs.as_slice())
}

} // verus!
