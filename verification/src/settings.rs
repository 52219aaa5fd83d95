//! Nested settings: a tree of tables keyed by the dot-separated parts of
//! each setting's key, viewed as the map from key paths to the values at the
//! leaves.

use vstd::prelude::*;

verus! {

/// A path into nested settings: the dot-separated parts of a key, in order.
pub type KeyPath = Seq<Seq<char>>;

/// The value of a setting, as a mathematical value.
pub enum Scalar {
    Text(Seq<char>),
    Bool(bool),
    Integer(int),
}

/// A value in nested settings: a setting's value, or a table of further
/// settings.
#[derive(Debug)]
pub enum SysctlValue {
    Text(String),
    Bool(bool),
    Integer(i64),
    Table(SysctlMap),
}

/// Parsed sysctl settings as nested tables: `a.b = c` puts the table `a` at
/// the top level, with the setting `b` inside it.
#[derive(Debug)]
pub struct SysctlMap {
    entries: Vec<(String, SysctlValue)>,
}

/// `a` is a prefix of `b` (possibly `b` itself).
pub open spec fn is_prefix(a: KeyPath, b: KeyPath) -> bool {
    a.len() <= b.len() && b.take(a.len() as int) == a
}

/// One of `a` and `b` is a prefix of the other.
pub open spec fn related(a: KeyPath, b: KeyPath) -> bool {
    is_prefix(a, b) || is_prefix(b, a)
}

/// The settings `m` once the value `v` is stored at the path `p`: `p` holds
/// `v`; a setting stored at a path that leads to `p`, or below `p`, is gone,
/// since those paths now name tables or the new setting; all other settings
/// stay as they were.
pub open spec fn insert_leaf(m: Map<KeyPath, Scalar>, p: KeyPath, v: Scalar) -> Map<
    KeyPath,
    Scalar,
> {
    Map::new(
        |q: KeyPath| q == p || (m.contains_key(q) && !related(q, p)),
        |q: KeyPath|
            if q == p {
                v
            } else {
                m[q]
            },
    )
}

/// The settings of `m` below the top-level key `k`, with `k` dropped from
/// their paths.
pub open spec fn below(m: Map<KeyPath, Scalar>, k: Seq<char>) -> Map<KeyPath, Scalar> {
    Map::new(|q: KeyPath| m.contains_key(seq![k] + q), |q: KeyPath| m[seq![k] + q])
}

/// The top-level keys of `m`.
pub open spec fn top_keys(m: Map<KeyPath, Scalar>) -> Set<Seq<char>> {
    Set::new(|k: Seq<char>| exists|q: KeyPath| #[trigger] m.contains_key(q) && q.len() > 0 && q[0] == k)
}

/// No stored path leads to another stored path.
pub open spec fn prefix_free(m: Map<KeyPath, Scalar>) -> bool {
    forall|p: KeyPath, q: KeyPath|
        #[trigger] m.contains_key(p) && #[trigger] m.contains_key(q) && p != q ==> !is_prefix(p, q)
}

impl SysctlValue {
    /// The value of a setting, or `None` for a table.
    pub open spec fn scalar(self) -> Option<Scalar> {
        match self {
            SysctlValue::Text(s) => Some(Scalar::Text(s@)),
            SysctlValue::Bool(b) => Some(Scalar::Bool(b)),
            SysctlValue::Integer(i) => Some(Scalar::Integer(i as int)),
            SysctlValue::Table(_) => None,
        }
    }

    /// The settings at and below this value, by their paths from it: a
    /// setting is found at the empty path.
    pub open spec fn leaves(self) -> Map<KeyPath, Scalar> {
        match self {
            SysctlValue::Table(t) => t@,
            _ => Map::empty().insert(Seq::empty(), self.scalar().unwrap()),
        }
    }
}

impl SysctlMap {
    pub closed spec fn entry_count(self) -> nat {
        self.entries@.len()
    }

    pub closed spec fn keys_unique(self) -> bool {
        forall|i: int, j: int|
            0 <= i < self.entries@.len() && 0 <= j < self.entries@.len() && i != j
                ==> #[trigger] self.entries@[i].0@ != #[trigger] self.entries@[j].0@
    }

    /// The index of an entry under the key `k`, if there is one.
    pub closed spec fn key_index(self, k: Seq<char>) -> int {
        choose|i: int| 0 <= i < self.entries@.len() && #[trigger] self.entries@[i].0@ == k
    }

    /// The value stored directly under the key `k`.
    pub closed spec fn find(self, k: Seq<char>) -> Option<SysctlValue> {
        if exists|i: int| 0 <= i < self.entries@.len() && #[trigger] self.entries@[i].0@ == k {
            Some(self.entries@[self.key_index(k)].1)
        } else {
            None
        }
    }

    /// The value, or table, at the path `p`.
    pub closed spec fn value_at(self, p: KeyPath) -> Option<SysctlValue>
        decreases p.len(),
    {
        if p.len() == 0 {
            None
        } else {
            match self.find(p[0]) {
                None => None,
                Some(v) => if p.len() == 1 {
                    Some(v)
                } else {
                    match v {
                        SysctlValue::Table(t) => t.value_at(p.drop_first()),
                        _ => None,
                    }
                },
            }
        }
    }

    /// `v` is no table, or a nonempty one with unique keys.
    pub closed spec fn sound_table(v: Option<SysctlValue>) -> bool {
        match v {
            Some(SysctlValue::Table(t)) => t.keys_unique() && t.entries@.len() > 0,
            _ => true,
        }
    }

    /// `v` is no table, or a nonempty well-formed one.
    pub closed spec fn sound_child(v: SysctlValue) -> bool {
        match v {
            SysctlValue::Table(t) => t.keys_unique() && t.entries@.len() > 0 && t.wf(),
            _ => true,
        }
    }

    /// Keys are unique in every table, and no table below the top is empty.
    pub closed spec fn wf(self) -> bool {
        &&& self.keys_unique()
        &&& forall|p: KeyPath| #[trigger] Self::sound_table(self.value_at(p))
    }
}

impl View for SysctlMap {
    type V = Map<KeyPath, Scalar>;

    /// The settings, by their paths.
    closed spec fn view(&self) -> Map<KeyPath, Scalar> {
        Map::new(
            |p: KeyPath| self.value_at(p) matches Some(v) && v.scalar() is Some,
            |p: KeyPath| self.value_at(p).unwrap().scalar().unwrap(),
        )
    }
}

/// The key path named by the parts in `parts`.
pub open spec fn path_of(parts: Seq<String>) -> KeyPath {
    parts.map_values(|s: String| s@)
}

proof fn lemma_cons(q: KeyPath)
    requires
        q.len() > 0,
    ensures
        q == seq![q[0]] + q.drop_first(),
{
    assert(q =~= seq![q[0]] + q.drop_first());
}

proof fn lemma_cons_parts(k: Seq<char>, q: KeyPath)
    ensures
        (seq![k] + q).len() == q.len() + 1,
        (seq![k] + q)[0] == k,
        (seq![k] + q).drop_first() == q,
{
    assert((seq![k] + q).drop_first() =~= q);
}

proof fn lemma_related_cons(k: Seq<char>, a: KeyPath, b: KeyPath)
    ensures
        is_prefix(seq![k] + a, seq![k] + b) == is_prefix(a, b),
        related(seq![k] + a, seq![k] + b) == related(a, b),
{
    let ka = seq![k] + a;
    let kb = seq![k] + b;
    if a.len() <= b.len() {
        assert(kb.take(ka.len() as int) =~= seq![k] + b.take(a.len() as int));
        if kb.take(ka.len() as int) == ka {
            assert(b.take(a.len() as int) =~= kb.take(ka.len() as int).drop_first());
            assert(ka.drop_first() =~= a);
        }
    }
    if b.len() <= a.len() {
        assert(ka.take(kb.len() as int) =~= seq![k] + a.take(b.len() as int));
        if ka.take(kb.len() as int) == kb {
            assert(a.take(b.len() as int) =~= ka.take(kb.len() as int).drop_first());
            assert(kb.drop_first() =~= b);
        }
    }
}

proof fn lemma_unrelated_heads(a: KeyPath, b: KeyPath)
    requires
        a.len() > 0,
        b.len() > 0,
        a[0] != b[0],
    ensures
        !related(a, b),
{
    if is_prefix(a, b) {
        assert(b.take(a.len() as int)[0] == b[0]);
    }
    if is_prefix(b, a) {
        assert(a.take(b.len() as int)[0] == a[0]);
    }
}

impl SysctlMap {
    proof fn lemma_find(self, j: int)
        requires
            self.keys_unique(),
            0 <= j < self.entries@.len(),
        ensures
            self.find(self.entries@[j].0@) == Some(self.entries@[j].1),
    {
        let k = self.entries@[j].0@;
        assert(0 <= j < self.entries@.len() && self.entries@[j].0@ == k);
        let i = self.key_index(k);
        if i != j {
            assert(self.entries@[i].0@ != self.entries@[j].0@);
        }
    }

    proof fn lemma_find_some(self, k: Seq<char>)
        requires
            self.find(k) is Some,
        ensures
            exists|i: int|
                0 <= i < self.entries@.len() && #[trigger] self.entries@[i].0@ == k
                    && self.find(k) == Some(self.entries@[i].1),
    {
        assert(exists|i: int| 0 <= i < self.entries@.len() && #[trigger] self.entries@[i].0@ == k);
        let i = self.key_index(k);
        assert(self.find(k) == Some(self.entries@[i].1));
        assert(self.entries@[i].0@ == k && self.find(k) == Some(self.entries@[i].1));
    }

    proof fn lemma_value_at_cons(self, k: Seq<char>, q: KeyPath)
        ensures
            self.value_at(seq![k] + q) == match self.find(k) {
                None => None,
                Some(v) => if q.len() == 0 {
                    Some(v)
                } else {
                    match v {
                        SysctlValue::Table(t) => t.value_at(q),
                        _ => None,
                    }
                },
            },
    {
        lemma_cons_parts(k, q);
    }

    /// A table below a well-formed map is itself well formed.
    proof fn lemma_wf_child(self, i: int)
        requires
            self.wf(),
            0 <= i < self.entries@.len(),
        ensures
            Self::sound_child(self.entries@[i].1),
    {
        if let SysctlValue::Table(t) = self.entries@[i].1 {
            let k = self.entries@[i].0@;
            self.lemma_find(i);
            self.lemma_value_at_cons(k, Seq::empty());
            assert(seq![k] + Seq::<Seq<char>>::empty() =~= seq![k]);
            assert(self.value_at(seq![k]) == Some(SysctlValue::Table(t)));
            assert(Self::sound_table(self.value_at(seq![k])));
            assert forall|p: KeyPath| #[trigger] Self::sound_table(t.value_at(p)) by {
                self.lemma_value_at_cons(k, p);
                if p.len() > 0 {
                    assert(self.value_at(seq![k] + p) == t.value_at(p));
                    assert(Self::sound_table(self.value_at(seq![k] + p)));
                }
            }
        }
    }

    /// A map is well formed when its keys are unique and the tables directly
    /// in it are nonempty and well formed.
    proof fn lemma_wf_from_children(self)
        requires
            self.keys_unique(),
            forall|i: int|
                0 <= i < self.entries@.len() ==> Self::sound_child(#[trigger] self.entries@[i].1),
        ensures
            self.wf(),
    {
        assert forall|p: KeyPath| #[trigger] Self::sound_table(self.value_at(p)) by {
            if p.len() > 0 && self.find(p[0]) is Some {
            lemma_cons(p);
            let k = p[0];
            let q = p.drop_first();
            self.lemma_value_at_cons(k, q);
            self.lemma_find_some(k);
            let i = choose|i: int|
                0 <= i < self.entries@.len() && #[trigger] self.entries@[i].0@ == k && self.find(k)
                    == Some(self.entries@[i].1);
            assert(Self::sound_child(self.entries@[i].1));
            if q.len() > 0 {
                if let SysctlValue::Table(t) = self.entries@[i].1 {
                    assert(Self::sound_table(t.value_at(q)));
                }
            }
            }
        }
    }

    /// A path that reaches a table or a setting passes through an entry.
    proof fn lemma_value_at_nonempty(self, p: KeyPath)
        requires
            self.value_at(p) is Some,
        ensures
            self.entries@.len() > 0,
    {
        self.lemma_find_some(p[0]);
    }

    /// The view of a map once its entry under `k` holds `nv`, and all other
    /// entries are as in `old`.
    proof fn lemma_value_at_after_set(old: SysctlMap, new: SysctlMap, k: Seq<char>, nv: SysctlValue)
        requires
            forall|k2: Seq<char>| k2 != k ==> #[trigger] new.find(k2) == old.find(k2),
            new.find(k) == Some(nv),
        ensures
            forall|q: KeyPath|
                q.len() > 0 && q[0] != k ==> #[trigger] new.value_at(q) == old.value_at(q),
            forall|q: KeyPath|
                #![trigger new.value_at(seq![k] + q)]
                new.value_at(seq![k] + q) == if q.len() == 0 {
                    Some(nv)
                } else {
                    match nv {
                        SysctlValue::Table(t) => t.value_at(q),
                        _ => None,
                    }
                },
    {
        assert forall|q: KeyPath|
            q.len() > 0 && q[0] != k implies #[trigger] new.value_at(q) == old.value_at(q) by {
            assert(new.find(q[0]) == old.find(q[0]));
        }
        assert forall|q: KeyPath|
            #![trigger new.value_at(seq![k] + q)]
            new.value_at(seq![k] + q) == if q.len() == 0 {
                Some(nv)
            } else {
                match nv {
                    SysctlValue::Table(t) => t.value_at(q),
                    _ => None,
                }
            } by {
            new.lemma_value_at_cons(k, q);
        }
    }

    /// Storing a setting directly under `k`.
    proof fn lemma_view_set_here(old: SysctlMap, new: SysctlMap, k: Seq<char>, nv: SysctlValue)
        requires
            forall|k2: Seq<char>| k2 != k ==> #[trigger] new.find(k2) == old.find(k2),
            new.find(k) == Some(nv),
            nv.scalar() is Some,
        ensures
            new@ == insert_leaf(old@, seq![k], nv.scalar().unwrap()),
    {
        let r = seq![k];
        let m = insert_leaf(old@, r, nv.scalar().unwrap());
        Self::lemma_value_at_after_set(old, new, k, nv);
        assert forall|q: KeyPath| #![trigger new@.contains_key(q)] #![trigger m.contains_key(q)] new@.contains_key(q) == m.contains_key(q) && (new@.contains_key(q)
            ==> new@[q] == m[q]) by {
            if q.len() == 0 {
                assert(!is_prefix(r, q));
                assert(q != r);
            } else if q[0] != k {
                lemma_unrelated_heads(q, r);
                assert(new.value_at(q) == old.value_at(q));
            } else {
                lemma_cons(q);
                let q2 = q.drop_first();
                assert(new.value_at(seq![k] + q2) == new.value_at(q));
                if q2.len() == 0 {
                    assert(q =~= r);
                } else {
                    assert(q != r);
                    assert(q.take(1) =~= r);
                    assert(is_prefix(r, q));
                }
            }
        }
        assert(new@.dom() =~= m.dom());
        assert(new@ =~= m);
    }

    /// Storing a setting below the table under `k`, where `c_old` is what
    /// lies below `k` in `old` and `c_new` the table now under `k`.
    proof fn lemma_view_set_below(
        old: SysctlMap,
        new: SysctlMap,
        k: Seq<char>,
        c_old: SysctlMap,
        c_new: SysctlMap,
        rest: KeyPath,
        v: Scalar,
    )
        requires
            forall|k2: Seq<char>| k2 != k ==> #[trigger] new.find(k2) == old.find(k2),
            new.find(k) == Some(SysctlValue::Table(c_new)),
            forall|q: KeyPath|
                q.len() > 0 ==> #[trigger] old.value_at(seq![k] + q) == c_old.value_at(q),
            c_new@ == insert_leaf(c_old@, rest, v),
            rest.len() > 0,
        ensures
            new@ == insert_leaf(old@, seq![k] + rest, v),
    {
        let r = seq![k] + rest;
        let m = insert_leaf(old@, r, v);
        Self::lemma_value_at_after_set(old, new, k, SysctlValue::Table(c_new));
        lemma_cons_parts(k, rest);
        assert forall|q: KeyPath| #![trigger new@.contains_key(q)] #![trigger m.contains_key(q)] new@.contains_key(q) == m.contains_key(q) && (new@.contains_key(q)
            ==> new@[q] == m[q]) by {
            if q.len() == 0 {
                assert(q != r);
                assert(!old@.contains_key(q));
            } else if q[0] != k {
                lemma_unrelated_heads(q, r);
                assert(new.value_at(q) == old.value_at(q));
            } else {
                lemma_cons(q);
                let q2 = q.drop_first();
                assert(new.value_at(seq![k] + q2) == new.value_at(q));
                if q2.len() == 0 {
                    assert(q != r);
                    assert(r.take(1) =~= q);
                    assert(is_prefix(q, r));
                } else {
                    lemma_related_cons(k, q2, rest);
                    assert(old.value_at(seq![k] + q2) == c_old.value_at(q2));
                    assert((q == r) == (q2 == rest)) by {
                        if q2 == rest {
                            assert(q =~= r);
                        }
                        if q == r {
                            assert(q2 =~= rest);
                        }
                    }
                    assert(c_new@.contains_key(q2) == new@.contains_key(q));
                    assert(c_old@.contains_key(q2) == old@.contains_key(q));
                    if new@.contains_key(q) {
                        assert(new@[q] == c_new@[q2]);
                        if q2 != rest {
                            assert(c_new@[q2] == c_old@[q2]);
                            assert(c_old@[q2] == old@[q]);
                        }
                    }
                }
            }
        }
        assert(new@.dom() =~= m.dom());
        assert(new@ =~= m);
    }

    /// A setting stored at `p` leaves nothing stored below it.
    proof fn lemma_nothing_below_setting(self, p: KeyPath, q: KeyPath)
        requires
            self.value_at(p) matches Some(v) && v.scalar() is Some,
            is_prefix(p, q),
            p != q,
        ensures
            self.value_at(q) is None,
        decreases p.len(),
    {
        lemma_cons(p);
        lemma_cons(q);
        let k = p[0];
        assert(q[0] == q.take(p.len() as int)[0]);
        self.lemma_value_at_cons(k, p.drop_first());
        self.lemma_value_at_cons(k, q.drop_first());
        if p.len() > 1 {
            if let Some(SysctlValue::Table(t)) = self.find(k) {
                assert(q.drop_first().take(p.drop_first().len() as int) =~= q.take(
                    p.len() as int,
                ).drop_first());
                if p.drop_first() == q.drop_first() {
                    assert(p =~= q);
                }
                t.lemma_nothing_below_setting(p.drop_first(), q.drop_first());
            }
        } else {
            if q.len() == 1 {
                assert(q =~= p);
            }
        }
    }

    /// The settings of a map never lie one below another.
    pub proof fn lemma_view_prefix_free(self)
        ensures
            prefix_free(self@),
    {
        assert forall|p: KeyPath, q: KeyPath|
            #[trigger] self@.contains_key(p) && #[trigger] self@.contains_key(q) && p
                != q implies !is_prefix(p, q) by {
            if is_prefix(p, q) {
                self.lemma_nothing_below_setting(p, q);
            }
        }
    }
}

/// Reading a path back after storing at it gives what was stored.
pub proof fn lemma_insert_reads_back(m: Map<KeyPath, Scalar>, p: KeyPath, v: Scalar)
    ensures
        insert_leaf(m, p, v).contains_key(p),
        insert_leaf(m, p, v)[p] == v,
{
}

/// Storing at `p` leaves every path that neither leads to `p` nor lies below
/// it as it was.
pub proof fn lemma_insert_keeps_unrelated(m: Map<KeyPath, Scalar>, p: KeyPath, v: Scalar, q: KeyPath)
    requires
        !related(q, p),
    ensures
        insert_leaf(m, p, v).contains_key(q) == m.contains_key(q),
        m.contains_key(q) ==> insert_leaf(m, p, v)[q] == m[q],
{
    assert(p.take(p.len() as int) =~= p);
}

/// A later store at the same path overwrites an earlier one entirely.
pub proof fn lemma_insert_overwrites(m: Map<KeyPath, Scalar>, p: KeyPath, v1: Scalar, v2: Scalar)
    ensures
        insert_leaf(insert_leaf(m, p, v1), p, v2) == insert_leaf(m, p, v2),
{
    assert(insert_leaf(insert_leaf(m, p, v1), p, v2) =~= insert_leaf(m, p, v2));
}

/// Storing keeps settings from lying one below another.
pub proof fn lemma_insert_prefix_free(m: Map<KeyPath, Scalar>, p: KeyPath, v: Scalar)
    requires
        prefix_free(m),
    ensures
        prefix_free(insert_leaf(m, p, v)),
{
    let n = insert_leaf(m, p, v);
    assert forall|a: KeyPath, b: KeyPath|
        #[trigger] n.contains_key(a) && #[trigger] n.contains_key(b) && a != b implies !is_prefix(
        a,
        b,
    ) by {
        if a != p && b != p {
            assert(m.contains_key(a) && m.contains_key(b));
        }
    }
}

impl SysctlMap {
    /// An empty map.
    pub fn new() -> (r: SysctlMap)
        ensures
            r.wf(),
            r@ == Map::<KeyPath, Scalar>::empty(),
            r.entry_count() == 0,
    {
        let r = SysctlMap { entries: Vec::new() };
        assert(r@ =~= Map::<KeyPath, Scalar>::empty());
        r
    }

    /// The index of the entry under `key`.
    fn position(&self, key: &String) -> (r: Option<usize>)
        ensures
            match r {
                Some(i) => i < self.entries@.len() && self.entries@[i as int].0@ == key@,
                None => forall|j: int|
                    0 <= j < self.entries@.len() ==> #[trigger] self.entries@[j].0@ != key@,
            },
    {
        let mut i: usize = 0;
        while i < self.entries.len()
            invariant
                i <= self.entries@.len(),
                forall|j: int| 0 <= j < i ==> #[trigger] self.entries@[j].0@ != key@,
            decreases self.entries@.len() - i,
        {
            if self.entries[i].0 == *key {
                return Some(i);
            }
            i = i + 1;
        }
        None
    }

    /// Facts about `new`, which is `old` with the entry at `i` set to `e`, or
    /// with `e` added when `i` is past the end.
    proof fn lemma_set_entry(old: SysctlMap, new: SysctlMap, i: int, e: (String, SysctlValue))
        requires
            old.keys_unique(),
            0 <= i <= old.entries@.len(),
            i < old.entries@.len() ==> old.entries@[i].0@ == e.0@ && new.entries@ == old.entries@.update(
                i,
                e,
            ),
            i == old.entries@.len() ==> new.entries@ == old.entries@.push(e) && forall|j: int|
                0 <= j < old.entries@.len() ==> #[trigger] old.entries@[j].0@ != e.0@,
        ensures
            new.keys_unique(),
            forall|k2: Seq<char>| k2 != e.0@ ==> #[trigger] new.find(k2) == old.find(k2),
            new.find(e.0@) == Some(e.1),
            forall|j: int| 0 <= j < new.entries@.len() && j != i ==> new.entries@[j] == old.entries@[j],
            new.entries@.len() > 0,
    {
        assert(new.entries@[i] == e);
        assert forall|a: int, b: int|
            0 <= a < new.entries@.len() && 0 <= b < new.entries@.len() && a != b implies #[trigger] new.entries@[a].0@
            != #[trigger] new.entries@[b].0@ by {
            if a != i && b != i {
                assert(old.entries@[a].0@ != old.entries@[b].0@);
            } else if a == i && i < old.entries@.len() {
                assert(old.entries@[a].0@ != old.entries@[b].0@);
            } else if b == i && i < old.entries@.len() {
                assert(old.entries@[a].0@ != old.entries@[b].0@);
            } else if a == i {
                assert(new.entries@[b] == old.entries@[b]);
            } else {
                assert(new.entries@[a] == old.entries@[a]);
            }
        }
        new.lemma_find(i);
        assert forall|k2: Seq<char>| k2 != e.0@ implies #[trigger] new.find(k2) == old.find(k2) by {
            if new.find(k2) is Some {
                new.lemma_find_some(k2);
                let j = choose|j: int|
                    0 <= j < new.entries@.len() && #[trigger] new.entries@[j].0@ == k2 && new.find(k2)
                        == Some(new.entries@[j].1);
                assert(j != i);
                assert(new.entries@[j] == old.entries@[j]);
                old.lemma_find(j);
            } else if old.find(k2) is Some {
                old.lemma_find_some(k2);
                let j = choose|j: int|
                    0 <= j < old.entries@.len() && #[trigger] old.entries@[j].0@ == k2 && old.find(k2)
                        == Some(old.entries@[j].1);
                assert(j != i);
                assert(new.entries@[j] == old.entries@[j]);
                new.lemma_find(j);
            }
        }
    }

    /// Stores `value` at the path made of `parts[start..]`.
    pub(crate) fn insert_path(&mut self, parts: &Vec<String>, start: usize, value: SysctlValue)
        requires
            old(self).wf(),
            start < parts@.len(),
            value.scalar() is Some,
        ensures
            final(self).wf(),
            final(self)@ == insert_leaf(
                old(self)@,
                path_of(parts@).skip(start as int),
                value.scalar().unwrap(),
            ),
        decreases parts@.len() - start,
    {
        let ghost old_self = *self;
        let ghost r = path_of(parts@).skip(start as int);
        let ghost k = parts@[start as int]@;
        proof {
            lemma_cons(r);
            assert(r[0] == k);
            assert(r.drop_first() =~= path_of(parts@).skip(start + 1));
        }
        let found = self.position(&parts[start]);
        if start == parts.len() - 1 {
            let e = (parts[start].clone(), value);
            let ghost at: int;
            match found {
                Some(i) => {
                    self.entries.set(i, e);
                    proof {
                        at = i as int;
                    }
                },
                None => {
                    self.entries.push(e);
                    proof {
                        at = old_self.entries@.len() as int;
                    }
                },
            }
            proof {
                Self::lemma_set_entry(old_self, *self, at, e);
                Self::lemma_view_set_here(old_self, *self, k, value);
                assert(r =~= seq![k]);
                assert forall|j: int| 0 <= j < self.entries@.len() implies Self::sound_child(
                    #[trigger] self.entries@[j].1,
                ) by {
                    if j != at {
                        old_self.lemma_wf_child(j);
                    }
                }
                self.lemma_wf_from_children();
            }
        } else {
            let mut child = SysctlMap::new();
            if let Some(i) = found {
                let mut slot = (parts[start].clone(), SysctlValue::Bool(false));
                self.entries.set_and_swap(i, &mut slot);
                assert(slot == old_self.entries@[i as int]);
                proof {
                    old_self.lemma_wf_child(i as int);
                }
                if let SysctlValue::Table(t) = slot.1 {
                    child = t;
                }
            }
            let ghost c_old = child;
            proof {
                match found {
                    Some(i) => {
                        old_self.lemma_find(i as int);
                    },
                    None => {},
                }
                assert forall|q: KeyPath| q.len() > 0 implies #[trigger] old_self.value_at(seq![k] + q)
                    == c_old.value_at(q) by {
                    old_self.lemma_value_at_cons(k, q);
                    if old_self.find(k) is Some {
                        old_self.lemma_find_some(k);
                    }
                    if !(old_self.find(k) matches Some(SysctlValue::Table(_))) {
                        assert(c_old.entries@.len() == 0);
                        if c_old.value_at(q) is Some {
                            c_old.lemma_value_at_nonempty(q);
                        }
                    }
                }
            }
            child.insert_path(parts, start + 1, value);
            let e = (parts[start].clone(), SysctlValue::Table(child));
            let ghost at: int;
            match found {
                Some(i) => {
                    self.entries.set(i, e);
                    proof {
                        at = i as int;
                        assert(self.entries@ =~= old_self.entries@.update(at, e));
                    }
                },
                None => {
                    self.entries.push(e);
                    proof {
                        at = old_self.entries@.len() as int;
                    }
                },
            }
            proof {
                Self::lemma_set_entry(old_self, *self, at, e);
                assert(r.drop_first().len() > 0);
                lemma_insert_reads_back(c_old@, r.drop_first(), value.scalar().unwrap());
                child.lemma_value_at_nonempty(r.drop_first());
                Self::lemma_view_set_below(
                    old_self,
                    *self,
                    k,
                    c_old,
                    child,
                    r.drop_first(),
                    value.scalar().unwrap(),
                );
                assert forall|j: int| 0 <= j < self.entries@.len() implies Self::sound_child(
                    #[trigger] self.entries@[j].1,
                ) by {
                    if j != at {
                        old_self.lemma_wf_child(j);
                    }
                }
                self.lemma_wf_from_children();
            }
        }
    }
}

impl SysctlValue {
    /// A table in the value is well formed and nonempty.
    pub closed spec fn wf(self) -> bool {
        SysctlMap::sound_child(self)
    }
}

impl SysctlMap {
    /// The keys of the entries, in order.
    closed spec fn entry_keys(self) -> Seq<Seq<char>> {
        self.entries@.map_values(|e: (String, SysctlValue)| e.0@)
    }

    /// A nonempty well-formed table holds at least one setting.
    proof fn lemma_has_setting(self)
        requires
            self.wf(),
            self.entries@.len() > 0,
        ensures
            exists|p: KeyPath| #[trigger] self@.contains_key(p),
        decreases self,
    {
        let k = self.entries@[0].0@;
        self.lemma_find(0);
        self.lemma_wf_child(0);
        self.lemma_value_at_cons(k, Seq::empty());
        assert(seq![k] + Seq::<Seq<char>>::empty() =~= seq![k]);
        match self.entries@[0].1 {
            SysctlValue::Table(c) => {
                assert(decreases_to!(self => self.entries));
                assert(decreases_to!(self.entries => self.entries@));
                assert(decreases_to!(self.entries@ => self.entries@[0]));
                assert(decreases_to!(self.entries@[0] => self.entries@[0].1));
                assert(decreases_to!(self.entries@[0].1 => c));
                c.lemma_has_setting();
                let p = choose|p: KeyPath| #[trigger] c@.contains_key(p);
                assert(p.len() > 0);
                self.lemma_value_at_cons(k, p);
                assert(self@.contains_key(seq![k] + p));
            },
            _ => {
                assert(self@.contains_key(seq![k]));
            },
        }
    }

    /// What the entry at `i` holds is what the map holds below its key.
    proof fn lemma_entry_below(self, i: int)
        requires
            self.wf(),
            0 <= i < self.entries@.len(),
        ensures
            self.entries@[i].1.wf(),
            self.entries@[i].1.leaves() == below(self@, self.entries@[i].0@),
            below(self@, self.entries@[i].0@) != Map::<KeyPath, Scalar>::empty(),
    {
        let k = self.entries@[i].0@;
        let v = self.entries@[i].1;
        self.lemma_find(i);
        self.lemma_wf_child(i);
        let b = below(self@, k);
        assert forall|q: KeyPath| #[trigger] b.contains_key(q) == v.leaves().contains_key(q) && (
        b.contains_key(q) ==> b[q] == v.leaves()[q]) by {
            self.lemma_value_at_cons(k, q);
            match v {
                SysctlValue::Table(t) => {
                    if q.len() == 0 {
                        assert(!t@.contains_key(q));
                    }
                },
                _ => {
                    if q.len() > 0 {
                        assert(q != Seq::<Seq<char>>::empty());
                        assert(!v.leaves().contains_key(q));
                    } else {
                        assert(q =~= Seq::<Seq<char>>::empty());
                    }
                },
            }
        }
        assert(b =~= v.leaves());
        match v {
            SysctlValue::Table(t) => {
                t.lemma_has_setting();
                let p = choose|p: KeyPath| #[trigger] t@.contains_key(p);
                assert(b.contains_key(p));
            },
            _ => {
                assert(v.leaves().contains_key(Seq::empty()));
                assert(b.contains_key(Seq::empty()));
            },
        }
    }

    /// The top-level keys of a well-formed map are the keys of its entries.
    proof fn lemma_top_keys(self)
        requires
            self.wf(),
        ensures
            top_keys(self@) == self.entry_keys().to_set(),
            top_keys(self@).len() == self.entries@.len(),
    {
        let ks = self.entry_keys();
        assert forall|k: Seq<char>| #[trigger] top_keys(self@).contains(k) == ks.to_set().contains(k) by {
            if top_keys(self@).contains(k) {
                let q = choose|q: KeyPath| #[trigger] self@.contains_key(q) && q.len() > 0 && q[0] == k;
                lemma_cons(q);
                self.lemma_value_at_cons(k, q.drop_first());
                self.lemma_find_some(k);
                let i = choose|i: int|
                    0 <= i < self.entries@.len() && #[trigger] self.entries@[i].0@ == k && self.find(k)
                        == Some(self.entries@[i].1);
                assert(ks[i] == k);
            }
            if ks.to_set().contains(k) {
                assert(ks.contains(k));
                let i = choose|i: int| 0 <= i < ks.len() && ks[i] == k;
                self.lemma_entry_below(i);
                let b = below(self@, k);
                assert(b != Map::<KeyPath, Scalar>::empty());
                if forall|q: KeyPath| !#[trigger] b.contains_key(q) {
                    assert(b =~= Map::<KeyPath, Scalar>::empty());
                }
                let q = choose|q: KeyPath| #[trigger] b.contains_key(q);
                lemma_cons_parts(k, q);
                assert(self@.contains_key(seq![k] + q));
            }
        }
        assert(top_keys(self@) =~= ks.to_set());
        assert forall|a: int, b: int| 0 <= a < ks.len() && 0 <= b < ks.len() && a != b implies ks[a]
            != ks[b] by {
            assert(self.entries@[a].0@ != self.entries@[b].0@);
        }
        ks.unique_seq_to_set();
    }

    /// The number of top-level keys.
    pub fn len(&self) -> (r: usize)
        requires
            self.wf(),
        ensures
            r == top_keys(self@).len(),
            r == self.entry_count(),
    {
        proof {
            self.lemma_top_keys();
        }
        self.entries.len()
    }

    /// What is stored under the top-level key `key`: a setting, or a table
    /// that holds the settings below `key`.
    pub fn get(&self, key: &str) -> (r: Option<&SysctlValue>)
        requires
            self.wf(),
        ensures
            match r {
                Some(v) => v.wf() && v.leaves() == below(self@, key@) && below(self@, key@)
                    != Map::<KeyPath, Scalar>::empty(),
                None => below(self@, key@) == Map::<KeyPath, Scalar>::empty(),
            },
    {
        let k = key.to_owned();
        match self.position(&k) {
            Some(i) => {
                proof {
                    self.lemma_entry_below(i as int);
                }
                Some(&self.entries[i].1)
            },
            None => {
                proof {
                    assert forall|q: KeyPath| !#[trigger] below(self@, key@).contains_key(q) by {
                        self.lemma_value_at_cons(key@, q);
                        if self.find(key@) is Some {
                            self.lemma_find_some(key@);
                        }
                    }
                    assert(below(self@, key@) =~= Map::<KeyPath, Scalar>::empty());
                }
                None
            },
        }
    }

    /// Whether `key` is a top-level key.
    pub fn contains_key(&self, key: &str) -> (r: bool)
        requires
            self.wf(),
        ensures
            r == top_keys(self@).contains(key@),
    {
        proof {
            self.lemma_top_keys();
        }
        let k = key.to_owned();
        match self.position(&k) {
            Some(i) => {
                assert(self.entry_keys()[i as int] == key@);
                true
            },
            None => {
                proof {
                    if self.entry_keys().contains(key@) {
                        let j = choose|j: int|
                            0 <= j < self.entry_keys().len() && self.entry_keys()[j] == key@;
                        assert(self.entries@[j].0@ == key@);
                    }
                }
                false
            },
        }
    }

    /// The key of the entry at `i`.
    pub closed spec fn key_at(self, i: int) -> Seq<char> {
        self.entries@[i].0@
    }

    /// The entries of a well-formed map hold each top-level key once.
    pub proof fn lemma_entries_cover_top_keys(self)
        requires
            self.wf(),
        ensures
            forall|i: int, j: int|
                0 <= i < self.entry_count() && 0 <= j < self.entry_count() && i != j
                    ==> #[trigger] self.key_at(i) != #[trigger] self.key_at(j),
            forall|k: Seq<char>|
                #[trigger] top_keys(self@).contains(k) <==> exists|i: int|
                    0 <= i < self.entry_count() && #[trigger] self.key_at(i) == k,
    {
        self.lemma_top_keys();
        assert forall|k: Seq<char>|
            #[trigger] top_keys(self@).contains(k) <==> exists|i: int|
                0 <= i < self.entry_count() && #[trigger] self.key_at(i) == k by {
            if top_keys(self@).contains(k) {
                assert(self.entry_keys().contains(k));
                let i = choose|i: int| 0 <= i < self.entry_keys().len() && self.entry_keys()[i] == k;
                assert(self.key_at(i) == k);
            }
            if exists|i: int| 0 <= i < self.entry_count() && #[trigger] self.key_at(i) == k {
                let i = choose|i: int| 0 <= i < self.entry_count() && #[trigger] self.key_at(i) == k;
                assert(self.entry_keys()[i] == k);
                assert(self.entry_keys().contains(k));
            }
        }
    }

    /// The entry at `i`: a top-level key and what is stored under it. Over
    /// `0..len()` the entries hold each top-level key once
    /// (`lemma_entries_cover_top_keys`), in no order that is promised.
    pub fn entry_at(&self, i: usize) -> (r: (&str, &SysctlValue))
        requires
            self.wf(),
            i < self.entry_count(),
        ensures
            r.0@ == self.key_at(i as int),
            top_keys(self@).contains(r.0@),
            r.1.wf(),
            r.1.leaves() == below(self@, r.0@),
    {
        proof {
            self.lemma_entry_below(i as int);
            self.lemma_top_keys();
            assert(self.entry_keys()[i as int] == self.entries@[i as int].0@);
        }
        (self.entries[i].0.as_str(), &self.entries[i].1)
    }
}

impl SysctlValue {
    /// What is stored under `key` in a table; `None` for a setting.
    pub fn get(&self, key: &str) -> (r: Option<&SysctlValue>)
        requires
            self.wf(),
        ensures
            match r {
                Some(v) => v.wf() && v.leaves() == below(self.leaves(), key@) && below(
                    self.leaves(),
                    key@,
                ) != Map::<KeyPath, Scalar>::empty(),
                None => below(self.leaves(), key@) == Map::<KeyPath, Scalar>::empty(),
            },
    {
        match self {
            SysctlValue::Table(t) => t.get(key),
            _ => {
                assert forall|q: KeyPath| !#[trigger] below(self.leaves(), key@).contains_key(q) by {
                    lemma_cons_parts(key@, q);
                }
                assert(below(self.leaves(), key@) =~= Map::<KeyPath, Scalar>::empty());
                None
            },
        }
    }

    /// The table, if this value is one.
    pub fn as_table(&self) -> (r: Option<&SysctlMap>)
        requires
            self.wf(),
        ensures
            match r {
                Some(t) => t.wf() && t@ == self.leaves() && self.scalar() is None,
                None => self.scalar() is Some,
            },
    {
        match self {
            SysctlValue::Table(t) => Some(t),
            _ => None,
        }
    }

    /// The text of a text setting.
    pub fn as_str(&self) -> (r: Option<&str>)
        ensures
            match self.scalar() {
                Some(Scalar::Text(s)) => r matches Some(x) && x@ == s,
                _ => r is None,
            },
    {
        match self {
            SysctlValue::Text(s) => Some(s.as_str()),
            _ => None,
        }
    }

    /// The truth value of a boolean setting.
    pub fn as_bool(&self) -> (r: Option<bool>)
        ensures
            match self.scalar() {
                Some(Scalar::Bool(b)) => r == Some(b),
                _ => r is None,
            },
    {
        match self {
            SysctlValue::Bool(b) => Some(*b),
            _ => None,
        }
    }

    /// The number of an integer setting.
    pub fn as_i64(&self) -> (r: Option<i64>)
        ensures
            match self.scalar() {
                Some(Scalar::Integer(i)) => r matches Some(x) && x as int == i,
                _ => r is None,
            },
    {
        match self {
            SysctlValue::Integer(i) => Some(*i),
            _ => None,
        }
    }
}

impl SysctlMap {
    /// Every path of a setting has at least one part.
    pub proof fn lemma_view_paths_nonempty(self)
        ensures
            forall|p: KeyPath| #[trigger] self@.contains_key(p) ==> p.len() > 0,
    {
    }
}

impl SysctlValue {
    /// A setting's leaves are its value at the empty path; a table has no
    /// setting at the empty path.
    pub proof fn lemma_leaves(self)
        ensures
            match self.scalar() {
                Some(x) => self.leaves() == Map::<KeyPath, Scalar>::empty().insert(Seq::empty(), x),
                None => !self.leaves().contains_key(Seq::empty()),
            },
    {
    }
}

} // verus!
