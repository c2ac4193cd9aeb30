//! The order in which names are kept: code point by code point, a proper
//! prefix before any of its extensions.

use vstd::prelude::*;
use vstd::std_specs::iter::IteratorSpec;

verus! {

/// How one name stands to another.
#[derive(Clone, Copy, Debug, PartialEq, Eq, Structural)]
pub enum NameOrder {
    /// The first name comes strictly before the second.
    Before,
    /// The two names are the same.
    Same,
    /// The first name comes strictly after the second.
    After,
}

/// `a` comes strictly before `b`: at the first place where they differ `a`
/// has the smaller code point, or `a` ends there and `b` goes on.
pub open spec fn name_lt(a: Seq<char>, b: Seq<char>) -> bool
    decreases a.len(),
{
    if b.len() == 0 {
        false
    } else if a.len() == 0 {
        true
    } else if a[0] != b[0] {
        a[0] < b[0]
    } else {
        name_lt(a.drop_first(), b.drop_first())
    }
}

/// The place of `a` relative to `b`.
pub open spec fn name_order(a: Seq<char>, b: Seq<char>) -> NameOrder {
    if a == b {
        NameOrder::Same
    } else if name_lt(a, b) {
        NameOrder::Before
    } else {
        NameOrder::After
    }
}

/// No name comes before itself.
pub proof fn lemma_name_lt_irreflexive(a: Seq<char>)
    ensures
        !name_lt(a, a),
    decreases a.len(),
{
    if a.len() > 0 {
        lemma_name_lt_irreflexive(a.drop_first());
    }
}

/// Of two different names exactly one comes before the other.
pub proof fn lemma_name_lt_total(a: Seq<char>, b: Seq<char>)
    ensures
        a == b || name_lt(a, b) || name_lt(b, a),
        !(name_lt(a, b) && name_lt(b, a)),
        a == b ==> !name_lt(a, b),
    decreases a.len(),
{
    if a.len() == 0 || b.len() == 0 {
        if a.len() == 0 && b.len() == 0 {
            assert(a =~= b);
        }
    } else if a[0] == b[0] {
        lemma_name_lt_total(a.drop_first(), b.drop_first());
        if a.drop_first() == b.drop_first() {
            assert(a =~= seq![a[0]] + a.drop_first());
            assert(b =~= seq![b[0]] + b.drop_first());
        }
    }
    if a == b {
        lemma_name_lt_irreflexive(a);
    }
}

/// What comes before a name comes before everything after that name.
pub proof fn lemma_name_lt_transitive(a: Seq<char>, b: Seq<char>, c: Seq<char>)
    requires
        name_lt(a, b),
        name_lt(b, c),
    ensures
        name_lt(a, c),
    decreases a.len(),
{
    if a.len() > 0 && a[0] == b[0] && b[0] == c[0] {
        lemma_name_lt_transitive(a.drop_first(), b.drop_first(), c.drop_first());
    }
}

/// Names that start alike stand to each other as their remainders do.
proof fn lemma_same_head(a: Seq<char>, b: Seq<char>)
    requires
        a.len() > 0,
        b.len() > 0,
        a[0] == b[0],
    ensures
        name_order(a, b) == name_order(a.drop_first(), b.drop_first()),
{
    if a.drop_first() == b.drop_first() {
        assert(a =~= seq![a[0]] + a.drop_first());
        assert(b =~= seq![b[0]] + b.drop_first());
    }
    lemma_name_lt_total(a, b);
    lemma_name_lt_total(a.drop_first(), b.drop_first());
}

/// The names of `s` stand in strictly rising order; none occurs twice.
pub open spec fn rising(s: Seq<Seq<char>>) -> bool {
    forall|i: int, j: int| 0 <= i < j < s.len() ==> name_lt(#[trigger] s[i], #[trigger] s[j])
}

/// `s` lists exactly the names of `d`.
pub open spec fn lists(s: Seq<Seq<char>>, d: Set<Seq<char>>) -> bool {
    forall|n: Seq<char>| s.contains(n) <==> d.contains(n)
}

/// The names of `d` in rising order.
pub open spec fn names_in_order(d: Set<Seq<char>>) -> Seq<Seq<char>> {
    choose|s: Seq<Seq<char>>| rising(s) && lists(s, d)
}

/// `n` belongs at place `i` of the rising sequence `s`: after everything
/// before that place and before everything from it on.
pub open spec fn fits_at(s: Seq<Seq<char>>, n: Seq<char>, i: int) -> bool {
    &&& 0 <= i <= s.len()
    &&& forall|j: int| 0 <= j < i ==> name_lt(#[trigger] s[j], n)
    &&& forall|j: int| i <= j < s.len() ==> name_lt(n, #[trigger] s[j])
}

/// A rising sequence holds no name twice.
pub proof fn lemma_rising_no_duplicates(s: Seq<Seq<char>>)
    requires
        rising(s),
    ensures
        s.no_duplicates(),
{
    assert forall|i: int, j: int| 0 <= i < s.len() && 0 <= j < s.len() && i != j implies s[i]
        != s[j] by {
        lemma_name_lt_irreflexive(s[i]);
    }
}

/// A name that fits at a place of a rising sequence does not occur in it,
/// and put in at that place it leaves the sequence rising.
pub proof fn lemma_rising_insert(s: Seq<Seq<char>>, n: Seq<char>, i: int)
    requires
        rising(s),
        fits_at(s, n, i),
    ensures
        !s.contains(n),
        rising(s.insert(i, n)),
        forall|m: Seq<char>| s.insert(i, n).contains(m) <==> m == n || s.contains(m),
{
    let t = s.insert(i, n);
    lemma_name_lt_irreflexive(n);
    assert forall|a: int, b: int| 0 <= a < b < t.len() implies name_lt(t[a], t[b]) by {
        let a0 = if a < i { a } else { a - 1 };
        let b0 = if b < i { b } else { b - 1 };
        if a == i {
            assert(t[b] == s[b0]);
        } else if b == i {
            assert(t[a] == s[a0]);
        } else {
            assert(t[a] == s[a0]);
            assert(t[b] == s[b0]);
        }
    }
    assert forall|m: Seq<char>| t.contains(m) <==> m == n || s.contains(m) by {
        if t.contains(m) {
            let k = choose|k: int| 0 <= k < t.len() && t[k] == m;
            if k < i {
                assert(s[k] == m);
            } else if k > i {
                assert(s[k - 1] == m);
            }
        }
        if m == n {
            assert(t[i] == m);
        }
        if s.contains(m) {
            let k = choose|k: int| 0 <= k < s.len() && s[k] == m;
            if k < i {
                assert(t[k] == m);
            } else {
                assert(t[k + 1] == m);
            }
        }
    }
}

/// Every name that a rising sequence lacks fits at one of its places.
pub proof fn lemma_rising_place(s: Seq<Seq<char>>, n: Seq<char>) -> (i: int)
    requires
        rising(s),
        !s.contains(n),
    ensures
        fits_at(s, n, i),
    decreases s.len(),
{
    if s.len() == 0 {
        0
    } else {
        let last = s.last();
        assert(s.contains(last));
        lemma_name_lt_total(last, n);
        if name_lt(last, n) {
            assert forall|j: int| 0 <= j < s.len() implies name_lt(#[trigger] s[j], n) by {
                if j < s.len() - 1 {
                    lemma_name_lt_transitive(s[j], last, n);
                }
            }
            s.len() as int
        } else {
            let front = s.drop_last();
            assert forall|k: int| 0 <= k < front.len() implies front[k] != n by {
                assert(s[k] == front[k]);
            }
            let i = lemma_rising_place(front, n);
            assert forall|j: int| i <= j < s.len() implies name_lt(n, #[trigger] s[j]) by {
                if j < s.len() - 1 {
                    assert(s[j] == front[j]);
                }
            }
            assert forall|j: int| 0 <= j < i implies name_lt(#[trigger] s[j], n) by {
                assert(s[j] == front[j]);
            }
            i
        }
    }
}

/// Two rising sequences that hold the same names are the same sequence.
pub proof fn lemma_rising_unique(s: Seq<Seq<char>>, t: Seq<Seq<char>>)
    requires
        rising(s),
        rising(t),
        forall|n: Seq<char>| s.contains(n) <==> t.contains(n),
    ensures
        s == t,
    decreases s.len(),
{
    if s.len() == 0 {
        if t.len() > 0 {
            assert(t.contains(t[0]));
        }
        assert(s =~= t);
    } else {
        let a = s.last();
        assert(s.contains(a));
        assert(t.contains(a));
        let b = t.last();
        assert(t.contains(b));
        assert(s.contains(b));
        let ia = choose|k: int| 0 <= k < t.len() && t[k] == a;
        let ib = choose|k: int| 0 <= k < s.len() && s[k] == b;
        lemma_name_lt_total(a, b);
        lemma_name_lt_irreflexive(a);
        assert(a == b) by {
            if ia < t.len() - 1 {
                assert(name_lt(t[ia], t[t.len() - 1]));
            }
            if ib < s.len() - 1 {
                assert(name_lt(s[ib], s[s.len() - 1]));
            }
        }
        let s0 = s.drop_last();
        let t0 = t.drop_last();
        assert forall|n: Seq<char>| s0.contains(n) <==> t0.contains(n) by {
            lemma_name_lt_irreflexive(n);
            if s0.contains(n) {
                let k = choose|k: int| 0 <= k < s0.len() && s0[k] == n;
                assert(s[k] == n);
                assert(name_lt(s[k], s[s.len() - 1]));
                assert(s.contains(n));
                let m = choose|m: int| 0 <= m < t.len() && t[m] == n;
                assert(t0[m] == n);
            }
            if t0.contains(n) {
                let k = choose|k: int| 0 <= k < t0.len() && t0[k] == n;
                assert(t[k] == n);
                assert(name_lt(t[k], t[t.len() - 1]));
                assert(t.contains(n));
                let m = choose|m: int| 0 <= m < s.len() && s[m] == n;
                assert(s0[m] == n);
            }
        }
        assert(rising(s0)) by {
            assert forall|i: int, j: int| 0 <= i < j < s0.len() implies name_lt(
                #[trigger] s0[i],
                #[trigger] s0[j],
            ) by {
                assert(name_lt(s[i], s[j]));
            }
        }
        assert(rising(t0)) by {
            assert forall|i: int, j: int| 0 <= i < j < t0.len() implies name_lt(
                #[trigger] t0[i],
                #[trigger] t0[j],
            ) by {
                assert(name_lt(t[i], t[j]));
            }
        }
        lemma_rising_unique(s0, t0);
        assert(s =~= s0.push(a));
        assert(t =~= t0.push(b));
    }
}

/// A rising sequence that lists the names of a set is that set's names in
/// order.
pub proof fn lemma_names_in_order(s: Seq<Seq<char>>, d: Set<Seq<char>>)
    requires
        rising(s),
        lists(s, d),
    ensures
        names_in_order(d) == s,
{
    let t = names_in_order(d);
    assert(rising(t) && lists(t, d));
    lemma_rising_unique(s, t);
}

/// The names of a finite set can be put in rising order.
pub proof fn lemma_finite_in_order(d: Set<Seq<char>>)
    requires
        d.finite(),
    ensures
        rising(names_in_order(d)),
        lists(names_in_order(d), d),
    decreases d.len(),
{
    if d.len() == 0 {
        let none = Seq::<Seq<char>>::empty();
        assert(rising(none) && lists(none, d));
    } else {
        let n = d.choose();
        let rest = d.remove(n);
        lemma_finite_in_order(rest);
        let front = names_in_order(rest);
        let i = lemma_rising_place(front, n);
        lemma_rising_insert(front, n, i);
        let all = front.insert(i, n);
        assert(rising(all) && lists(all, d));
    }
}

/// Compares two names code point by code point.
pub fn compare_names(a: &str, b: &str) -> (r: NameOrder)
    ensures
        r == name_order(a@, b@),
{
    let mut ia = a.chars();
    let mut ib = b.chars();
    loop
        invariant
            ia.obeys_prophetic_iter_laws(),
            ib.obeys_prophetic_iter_laws(),
            ia.decrease() is Some,
            name_order(a@, b@) == name_order(ia.remaining(), ib.remaining()),
        decreases ia.decrease()->0,
    {
        let ghost ra = ia.remaining();
        let ghost rb = ib.remaining();
        let x = ia.next();
        let y = ib.next();
        match (x, y) {
            (None, None) => {
                assert(ra =~= rb);
                return NameOrder::Same;
            },
            (None, Some(_)) => {
                return NameOrder::Before;
            },
            (Some(_), None) => {
                return NameOrder::After;
            },
            (Some(p), Some(q)) => {
                if p < q {
                    return NameOrder::Before;
                } else if q < p {
                    return NameOrder::After;
                }
                proof {
                    lemma_same_head(ra, rb);
                }
            },
        }
    }
}

} // verus!
