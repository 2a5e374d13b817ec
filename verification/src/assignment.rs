//! Variable assignments: names bound to values, kept in name order.
use vstd::prelude::*;
use crate::number::Rational;
use crate::text::str_equals;

verus! {

/// Lexicographic order of character sequences (by code point, which is also
/// the byte order of their UTF-8 encodings).
pub open spec fn seq_lt(a: Seq<char>, b: Seq<char>) -> bool
    decreases a.len(),
{
    if a.len() == 0 {
        b.len() > 0
    } else if b.len() == 0 {
        false
    } else if a[0] != b[0] {
        a[0] < b[0]
    } else {
        seq_lt(a.drop_first(), b.drop_first())
    }
}

pub proof fn lemma_seq_lt_irreflexive(a: Seq<char>)
    ensures
        !seq_lt(a, a),
    decreases a.len(),
{
    if a.len() > 0 {
        lemma_seq_lt_irreflexive(a.drop_first());
    }
}

pub proof fn lemma_seq_lt_transitive(a: Seq<char>, b: Seq<char>, c: Seq<char>)
    requires
        seq_lt(a, b),
        seq_lt(b, c),
    ensures
        seq_lt(a, c),
    decreases a.len(),
{
    if a.len() > 0 && b.len() > 0 && c.len() > 0 {
        if a[0] == b[0] && b[0] == c[0] {
            lemma_seq_lt_transitive(a.drop_first(), b.drop_first(), c.drop_first());
        }
    }
}

pub proof fn lemma_seq_lt_total(a: Seq<char>, b: Seq<char>)
    ensures
        a != b ==> seq_lt(a, b) || seq_lt(b, a),
        !(seq_lt(a, b) && seq_lt(b, a)),
    decreases a.len(),
{
    if a.len() > 0 && b.len() > 0 {
        lemma_seq_lt_total(a.drop_first(), b.drop_first());
        if a[0] == b[0] && a.drop_first() == b.drop_first() {
            assert(a =~= seq![a[0]] + a.drop_first());
            assert(b =~= seq![b[0]] + b.drop_first());
        }
    } else if a.len() == 0 && b.len() == 0 {
        assert(a =~= b);
    }
}

/// Whether `a` comes before `b` in lexicographic order.
pub fn str_less(a: &str, b: &str) -> (r: bool)
    ensures
        r == seq_lt(a@, b@),
{
    let n = a.unicode_len();
    let m = b.unicode_len();
    let mut i: usize = 0;
    assert(a@.skip(0) =~= a@);
    assert(b@.skip(0) =~= b@);
    while i < n && i < m
        invariant
            n == a@.len(),
            m == b@.len(),
            i <= n,
            i <= m,
            seq_lt(a@, b@) == seq_lt(a@.skip(i as int), b@.skip(i as int)),
        decreases n - i,
    {
        let ca = a.get_char(i);
        let cb = b.get_char(i);
        let ghost sa = a@.skip(i as int);
        let ghost sb = b@.skip(i as int);
        assert(sa[0] == ca && sb[0] == cb);
        if ca != cb {
            return ca < cb;
        }
        assert(sa.drop_first() =~= a@.skip(i + 1));
        assert(sb.drop_first() =~= b@.skip(i + 1));
        i = i + 1;
    }
    i == n && i < m
}

/// Entries with strictly increasing names.
pub open spec fn sorted_keys(s: Seq<(Seq<char>, Rational)>) -> bool {
    forall|i: int, j: int| 0 <= i < j < s.len() ==> seq_lt(#[trigger] s[i].0, #[trigger] s[j].0)
}

/// The value bound to a name, if any.
pub open spec fn lookup(s: Seq<(Seq<char>, Rational)>, k: Seq<char>) -> Option<Rational>
    decreases s.len(),
{
    if s.len() == 0 {
        None
    } else if s[0].0 == k {
        Some(s[0].1)
    } else {
        lookup(s.drop_first(), k)
    }
}

/// The entries with `(k, v)` put in its place by name.
pub open spec fn insert_sorted(s: Seq<(Seq<char>, Rational)>, k: Seq<char>, v: Rational) -> Seq<
    (Seq<char>, Rational),
>
    decreases s.len(),
{
    if s.len() == 0 {
        seq![(k, v)]
    } else if seq_lt(k, s[0].0) {
        seq![(k, v)] + s
    } else {
        seq![s[0]] + insert_sorted(s.drop_first(), k, v)
    }
}

pub proof fn lemma_lookup_index(s: Seq<(Seq<char>, Rational)>, k: Seq<char>)
    ensures
        lookup(s, k) is None <==> forall|i: int| 0 <= i < s.len() ==> (#[trigger] s[i]).0 != k,
        lookup(s, k) is Some ==> exists|i: int| 0 <= i < s.len() && (#[trigger] s[i]).0 == k && s[i].1 == lookup(s, k)->0,
    decreases s.len(),
{
    if s.len() > 0 {
        lemma_lookup_index(s.drop_first(), k);
        if s[0].0 != k {
            assert forall|i: int| 0 < i < s.len() implies s[i] == s.drop_first()[i - 1] by {}
            if lookup(s, k) is Some {
                let j = choose|j: int| 0 <= j < s.drop_first().len() && (#[trigger] s.drop_first()[j]).0 == k
                    && s.drop_first()[j].1 == lookup(s, k)->0;
                assert(s[j + 1] == s.drop_first()[j]);
            }
        }
    }
}

pub proof fn lemma_insert_sorted(s: Seq<(Seq<char>, Rational)>, k: Seq<char>, v: Rational)
    requires
        sorted_keys(s),
        lookup(s, k) is None,
    ensures
        sorted_keys(insert_sorted(s, k, v)),
        insert_sorted(s, k, v).len() == s.len() + 1,
        forall|x: Seq<char>| #[trigger] lookup(insert_sorted(s, k, v), x) == if x == k {
            Some(v)
        } else {
            lookup(s, x)
        },
        forall|i: int|
            0 <= i < insert_sorted(s, k, v).len() ==> (#[trigger] insert_sorted(s, k, v)[i]).0 == k
                || s.contains(insert_sorted(s, k, v)[i]),
    decreases s.len(),
{
    let r = insert_sorted(s, k, v);
    if s.len() == 0 {
        assert(r.drop_first() =~= s);
    } else if seq_lt(k, s[0].0) {
        assert forall|i: int, j: int| 0 <= i < j < r.len() implies seq_lt(#[trigger] r[i].0, #[trigger] r[j].0) by {
            if i == 0 {
                if j > 1 {
                    lemma_seq_lt_transitive(k, s[0].0, s[j - 1].0);
                }
            } else {
                assert(r[i] == s[i - 1] && r[j] == s[j - 1]);
            }
        }
        assert forall|x: Seq<char>| #[trigger] lookup(r, x) == if x == k {
            Some(v)
        } else {
            lookup(s, x)
        } by {
            assert(r.drop_first() =~= s);
        }
        assert forall|i: int| 0 <= i < r.len() implies (#[trigger] r[i]).0 == k || s.contains(r[i]) by {
            if i > 0 {
                assert(r[i] == s[i - 1]);
            }
        }
    } else {
        let t = s.drop_first();
        assert(sorted_keys(t)) by {
            assert forall|i: int, j: int| 0 <= i < j < t.len() implies seq_lt(#[trigger] t[i].0, #[trigger] t[j].0) by {
                assert(t[i] == s[i + 1] && t[j] == s[j + 1]);
            }
        }
        lemma_lookup_index(s, k);
        assert(s[0].0 != k);
        lemma_seq_lt_total(k, s[0].0);
        lemma_insert_sorted(t, k, v);
        let rt = insert_sorted(t, k, v);
        assert(r == seq![s[0]] + rt);
        assert forall|i: int, j: int| 0 <= i < j < r.len() implies seq_lt(#[trigger] r[i].0, #[trigger] r[j].0) by {
            if i == 0 {
                assert(r[j] == rt[j - 1]);
                if rt[j - 1].0 == k {
                } else {
                    assert(t.contains(rt[j - 1]));
                    let m = choose|m: int| 0 <= m < t.len() && t[m] == rt[j - 1];
                    assert(t[m] == s[m + 1]);
                }
            } else {
                assert(r[i] == rt[i - 1] && r[j] == rt[j - 1]);
            }
        }
        assert forall|x: Seq<char>| #[trigger] lookup(r, x) == if x == k {
            Some(v)
        } else {
            lookup(s, x)
        } by {
            assert(r.drop_first() =~= rt);
            assert(lookup(rt, x) == if x == k {
                Some(v)
            } else {
                lookup(t, x)
            });
        }
        assert forall|i: int| 0 <= i < r.len() implies (#[trigger] r[i]).0 == k || s.contains(r[i]) by {
            if i > 0 {
                assert(r[i] == rt[i - 1]);
                if rt[i - 1].0 != k {
                    let m = choose|m: int| 0 <= m < t.len() && t[m] == rt[i - 1];
                    assert(t[m] == s[m + 1]);
                }
            } else {
                assert(s[0] == r[0]);
            }
        }
    }
}

/// Names bound to values, kept sorted by name with each name once.
#[derive(Debug, PartialEq)]
pub struct Assignment {
    entries: Vec<(String, Rational)>,
}

impl Assignment {
    #[verifier::type_invariant]
    pub closed spec fn sorted(self) -> bool {
        sorted_keys(self.entries_view())
    }

    closed spec fn entries_view(self) -> Seq<(Seq<char>, Rational)> {
        self.entries@.map_values(|e: (String, Rational)| (e.0@, e.1))
    }
}

impl View for Assignment {
    type V = Seq<(Seq<char>, Rational)>;

    closed spec fn view(&self) -> Seq<(Seq<char>, Rational)> {
        self.entries_view()
    }
}

impl Assignment {
    /// The empty assignment.
    pub fn new() -> (a: Assignment)
        ensures
            a@ == Seq::<(Seq<char>, Rational)>::empty(),
    {
        let entries: Vec<(String, Rational)> = Vec::new();
        assert(entries@.len() == 0);
        let a = Assignment { entries };
        assert(a.entries_view() =~= seq![]);
        a
    }

    /// The entries are sorted by name, each name once.
    pub proof fn lemma_sorted(self)
        requires
            self.sorted(),
        ensures
            sorted_keys(self@),
    {
    }

    pub fn len(&self) -> (n: usize)
        ensures
            n == self@.len(),
    {
        self.entries.len()
    }

    /// The name and value of the `i`-th entry in name order.
    pub fn entry(&self, i: usize) -> (e: (&String, Rational))
        requires
            i < self@.len(),
        ensures
            e.0@ == self@[i as int].0,
            e.1 == self@[i as int].1,
    {
        (&self.entries[i].0, self.entries[i].1)
    }

    /// The value bound to `name`, if any.
    pub fn get(&self, name: &str) -> (r: Option<Rational>)
        ensures
            r == lookup(self@, name@),
    {
        let ghost s = self@;
        let mut i: usize = 0;
        assert(s.skip(0) =~= s);
        while i < self.entries.len()
            invariant
                i <= self.entries@.len(),
                s == self@,
                s.len() == self.entries@.len(),
                lookup(s, name@) == lookup(s.skip(i as int), name@),
            decreases self.entries@.len() - i,
        {
            let ghost rest = s.skip(i as int);
            assert(rest[0] == (self.entries@[i as int].0@, self.entries@[i as int].1));
            if str_equals(self.entries[i].0.as_str(), name) {
                return Some(self.entries[i].1);
            }
            assert(rest.drop_first() =~= s.skip(i + 1));
            i = i + 1;
        }
        None
    }

    /// Binds a name that is not bound yet.
    pub fn insert(&mut self, name: String, value: Rational)
        requires
            lookup(old(self)@, name@) is None,
        ensures
            final(self)@ == insert_sorted(old(self)@, name@, value),
    {
        proof {
            use_type_invariant(&*self);
        }
        let ghost s = self@;
        let mut i: usize = 0;
        assert(s.skip(0) =~= s);
        assert(s.subrange(0, 0) + insert_sorted(s, name@, value) =~= insert_sorted(s, name@, value));
        while i < self.entries.len() && !str_less(name.as_str(), self.entries[i].0.as_str())
            invariant
                i <= self.entries@.len(),
                s == self.entries_view(),
                s.len() == self.entries@.len(),
                insert_sorted(s, name@, value) == s.subrange(0, i as int) + insert_sorted(
                    s.skip(i as int),
                    name@,
                    value,
                ),
            decreases self.entries@.len() - i,
        {
            let ghost rest = s.skip(i as int);
            assert(rest[0] == s[i as int]);
            assert(rest.drop_first() =~= s.skip(i + 1));
            assert(s.subrange(0, i + 1) =~= s.subrange(0, i as int) + seq![s[i as int]]);
            i = i + 1;
        }
        proof {
            lemma_insert_sorted(s, name@, value);
            let rest = s.skip(i as int);
            if i < s.len() {
                assert(rest[0] == s[i as int]);
                assert(insert_sorted(rest, name@, value) == seq![(name@, value)] + rest);
            } else {
                assert(rest =~= seq![]);
            }
        }
        let mut entries = Vec::new();
        std::mem::swap(&mut entries, &mut self.entries);
        entries.insert(i, (name, value));
        assert(entries@.map_values(|e: (String, Rational)| (e.0@, e.1)) =~= insert_sorted(s, name@, value));
        self.entries = entries;
    }
}

} // verus!
