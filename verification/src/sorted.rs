//! Sorted sets of strings.

use crate::chars::chars_of;
use vstd::prelude::*;
use vstd::string::StringExecFns;

verus! {

/// `a` stands before `b` in lexicographic order.
pub open spec fn before(a: Seq<char>, b: Seq<char>) -> bool
    decreases a.len(),
{
    if b.len() == 0 {
        false
    } else if a.len() == 0 {
        true
    } else if a[0] != b[0] {
        a[0] < b[0]
    } else {
        before(a.skip(1), b.skip(1))
    }
}

/// Every string stands before the ones behind it: the strings are sorted, and
/// none occurs twice.
pub open spec fn ascending(s: Seq<Seq<char>>) -> bool {
    forall|i: int, j: int| 0 <= i < j < s.len() ==> before(#[trigger] s[i], #[trigger] s[j])
}

/// The sorted set with `x` added.
pub open spec fn with(s: Seq<Seq<char>>, x: Seq<char>) -> Seq<Seq<char>>
    decreases s.len(),
{
    if s.len() == 0 {
        seq![x]
    } else if s.last() == x {
        s
    } else if before(s.last(), x) {
        s.push(x)
    } else {
        with(s.drop_last(), x).push(s.last())
    }
}

/// The strings in order, each once.
pub open spec fn distinct_of(items: Seq<Seq<char>>) -> Seq<Seq<char>>
    decreases items.len(),
{
    if items.len() == 0 {
        Seq::empty()
    } else {
        with(distinct_of(items.drop_last()), items.last())
    }
}

/// The strings one after the other, with `separator` between them.
pub open spec fn joined(items: Seq<Seq<char>>, separator: Seq<char>) -> Seq<char>
    decreases items.len(),
{
    if items.len() == 0 {
        Seq::empty()
    } else if items.len() == 1 {
        items[0]
    } else {
        joined(items.drop_last(), separator) + separator + items.last()
    }
}

/// The strings of a vector.
pub open spec fn views(items: Seq<String>) -> Seq<Seq<char>> {
    Seq::new(items.len(), |i: int| items[i]@)
}

/// The order is strict and total.
pub proof fn lemma_order(a: Seq<char>, b: Seq<char>)
    ensures
        !before(a, a),
        before(a, b) ==> !before(b, a) && a != b,
        a != b ==> before(a, b) || before(b, a),
    decreases a.len(),
{
    if a.len() > 0 {
        if b.len() > 0 {
            lemma_order(a.skip(1), b.skip(1));
            if a[0] == b[0] && a.skip(1) == b.skip(1) {
                assert(a =~= seq![a[0]] + a.skip(1));
                assert(b =~= seq![b[0]] + b.skip(1));
            }
        } else {
            lemma_order(a.skip(1), b);
        }
    } else if b.len() == 0 {
        assert(a =~= b);
    }
}

/// The order is transitive.
pub proof fn lemma_order_chain(a: Seq<char>, b: Seq<char>, c: Seq<char>)
    requires
        before(a, b),
        before(b, c),
    ensures
        before(a, c),
    decreases a.len(),
{
    if a.len() > 0 && a[0] == b[0] && b[0] == c[0] {
        lemma_order_chain(a.skip(1), b.skip(1), c.skip(1));
    }
}

proof fn lemma_with(s: Seq<Seq<char>>, x: Seq<char>)
    requires
        ascending(s),
    ensures
        ascending(with(s, x)),
        forall|y: Seq<char>| #[trigger] with(s, x).contains(y) <==> s.contains(y) || y == x,
    decreases s.len(),
{
    let r = with(s, x);
    if s.len() == 0 {
        assert(r[0] == x);
    } else if s.last() == x {
        assert(s[s.len() - 1] == x);
    } else if before(s.last(), x) {
        assert forall|i: int, j: int| 0 <= i < j < r.len() implies before(
            #[trigger] r[i],
            #[trigger] r[j],
        ) by {
            if j == s.len() && i < s.len() - 1 {
                lemma_order_chain(s[i], s.last(), x);
            }
        }
        assert forall|y: Seq<char>| #[trigger] r.contains(y) <==> s.contains(y) || y == x by {
            assert(r[s.len() as int] == x);
            if s.contains(y) {
                let k = choose|k: int| 0 <= k < s.len() && s[k] == y;
                assert(r[k] == y);
            }
            if r.contains(y) {
                let k = choose|k: int| 0 <= k < r.len() && r[k] == y;
                if k < s.len() {
                    assert(s[k] == y);
                }
            }
        }
    } else {
        lemma_order(s.last(), x);
        let front = s.drop_last();
        lemma_with(front, x);
        let t = with(front, x);
        assert forall|i: int, j: int| 0 <= i < j < r.len() implies before(
            #[trigger] r[i],
            #[trigger] r[j],
        ) by {
            if j == t.len() {
                assert(t.contains(t[i]));
                if t[i] != x {
                    let k = choose|k: int| 0 <= k < front.len() && front[k] == t[i];
                    assert(s[k] == t[i]);
                    assert(before(s[k], s[s.len() - 1]));
                }
            }
        }
        assert forall|y: Seq<char>| #[trigger] r.contains(y) <==> s.contains(y) || y == x by {
            if r.contains(y) {
                let k = choose|k: int| 0 <= k < r.len() && r[k] == y;
                if k < t.len() {
                    assert(t.contains(y));
                    if y != x {
                        let m = choose|m: int| 0 <= m < front.len() && front[m] == y;
                        assert(s[m] == y);
                    }
                } else {
                    assert(s[s.len() - 1] == y);
                }
            }
            if s.contains(y) || y == x {
                if y == s.last() {
                    assert(r[t.len() as int] == y);
                } else {
                    if s.contains(y) {
                        let m = choose|m: int| 0 <= m < s.len() && s[m] == y;
                        assert(front[m] == y);
                    }
                    assert(t.contains(y));
                    let k = choose|k: int| 0 <= k < t.len() && t[k] == y;
                    assert(r[k] == y);
                }
            }
        }
    }
}

/// The distinct strings are sorted, each occurs once, and they are the ones
/// given.
pub proof fn law_distinct_strings_are_sorted_and_complete(items: Seq<Seq<char>>)
    ensures
        ascending(distinct_of(items)),
        forall|x: Seq<char>| #[trigger] distinct_of(items).contains(x) <==> items.contains(x),
    decreases items.len(),
{
    if items.len() > 0 {
        let front = items.drop_last();
        law_distinct_strings_are_sorted_and_complete(front);
        lemma_with(distinct_of(front), items.last());
        assert forall|x: Seq<char>| #[trigger]
            distinct_of(items).contains(x) <==> items.contains(x) by {
            if items.contains(x) {
                let k = choose|k: int| 0 <= k < items.len() && items[k] == x;
                if k < front.len() {
                    assert(front[k] == x);
                }
            }
            if front.contains(x) {
                let k = choose|k: int| 0 <= k < front.len() && front[k] == x;
                assert(items[k] == x);
            }
            assert(items[items.len() - 1] == items.last());
        }
    }
}

/// Whether `a` stands before `b`, or they are equal.
#[derive(Debug, Clone, Copy, PartialEq, Eq, Structural)]
pub enum Place {
    /// It stands before.
    Before,
    /// They are equal.
    Same,
    /// It stands behind.
    Behind,
}

/// How two strings stand in lexicographic order.
pub fn place(a: &str, b: &str) -> (r: Place)
    ensures
        match r {
            Place::Before => before(a@, b@),
            Place::Same => a@ == b@,
            Place::Behind => before(b@, a@),
        },
{
    let x = chars_of(a);
    let y = chars_of(b);
    let mut i: usize = 0;
    assert(x@.skip(0) =~= x@);
    assert(y@.skip(0) =~= y@);
    while i < x.len() && i < y.len()
        invariant
            i <= x@.len(),
            i <= y@.len(),
            x@ == a@,
            y@ == b@,
            before(a@, b@) == before(x@.skip(i as int), y@.skip(i as int)),
            before(b@, a@) == before(y@.skip(i as int), x@.skip(i as int)),
            a@.take(i as int) == b@.take(i as int),
        decreases x@.len() - i,
    {
        let ghost s = x@.skip(i as int);
        let ghost t = y@.skip(i as int);
        assert(s[0] == x@[i as int] && t[0] == y@[i as int]);
        if x[i] != y[i] {
            return if x[i] < y[i] {
                Place::Before
            } else {
                Place::Behind
            };
        }
        proof {
            assert(s.skip(1) =~= x@.skip(i + 1));
            assert(t.skip(1) =~= y@.skip(i + 1));
            assert(a@.take(i + 1) =~= a@.take(i as int).push(x@[i as int]));
            assert(b@.take(i + 1) =~= b@.take(i as int).push(y@[i as int]));
        }
        i += 1;
    }
    if i < y.len() {
        Place::Before
    } else if i < x.len() {
        Place::Behind
    } else {
        proof {
            assert(a@.take(i as int) =~= a@);
            assert(b@.take(i as int) =~= b@);
        }
        Place::Same
    }
}

proof fn lemma_with_at(s: Seq<Seq<char>>, x: Seq<char>, n: int)
    requires
        0 <= n <= s.len(),
        forall|k: int| n <= k < s.len() ==> before(x, #[trigger] s[k]),
    ensures
        with(s, x) == with(s.take(n), x) + s.skip(n),
    decreases s.len() - n,
{
    if n < s.len() {
        lemma_order(s.last(), x);
        assert(before(x, s[s.len() - 1]));
        let front = s.drop_last();
        lemma_with_at(front, x, n);
        assert(front.take(n) =~= s.take(n));
        assert(with(s, x) =~= with(s.take(n), x) + s.skip(n));
    } else {
        assert(s.take(n) =~= s);
        assert(s.skip(n) =~= Seq::empty());
        assert(with(s, x) =~= with(s, x) + Seq::<Seq<char>>::empty());
    }
}

/// Where `x` is in the sorted set, or where it belongs.
pub fn position(items: &Vec<String>, x: &str) -> (r: (usize, bool))
    ensures
        r.0 <= items@.len(),
        forall|k: int| r.0 <= k < items@.len() && !(r.1 && k == r.0) ==> before(
            x@,
            #[trigger] items@[k]@,
        ),
        r.1 ==> r.0 < items@.len() && items@[r.0 as int]@ == x@,
        !r.1 && r.0 > 0 ==> before(items@[r.0 - 1]@, x@),
        r.1 ==> with(views(items@), x@) == views(items@),
        !r.1 ==> with(views(items@), x@) == views(items@).insert(r.0 as int, x@),
{
    let mut n: usize = items.len();
    while n > 0
        invariant
            n <= items@.len(),
            forall|k: int| n <= k < items@.len() ==> before(x@, #[trigger] items@[k]@),
        decreases n,
    {
        match place(items[n - 1].as_str(), x) {
            Place::Same => {
                proof {
                    let v = views(items@);
                    assert forall|k: int| n <= k < v.len() implies before(x@, #[trigger] v[k]) by {
                        assert(before(x@, items@[k]@));
                    }
                    lemma_with_at(v, x@, n as int);
                    assert(v.take(n as int).last() == x@);
                    assert(v.take(n as int) + v.skip(n as int) =~= v);
                }
                return (n - 1, true);
            },
            Place::Before => {
                proof {
                    lemma_order(items@[n - 1]@, x@);
                    let v = views(items@);
                    assert forall|k: int| n <= k < v.len() implies before(x@, #[trigger] v[k]) by {
                        assert(before(x@, items@[k]@));
                    }
                    lemma_with_at(v, x@, n as int);
                    assert(v.take(n as int).last() == items@[n - 1]@);
                    assert(v.take(n as int).push(x@) + v.skip(n as int) =~= v.insert(n as int, x@));
                }
                return (n, false);
            },
            Place::Behind => {},
        }
        n -= 1;
    }
    proof {
        let v = views(items@);
        assert forall|k: int| 0 <= k < v.len() implies before(x@, #[trigger] v[k]) by {
            assert(before(x@, items@[k]@));
        }
        lemma_with_at(v, x@, 0);
        assert(v.take(0) =~= Seq::empty());
        assert(seq![x@] + v.skip(0) =~= v.insert(0, x@));
    }
    (0, false)
}

/// Adds `x` to the sorted set.
pub fn insert(items: &mut Vec<String>, x: &String)
    ensures
        views(final(items)@) == with(views(old(items)@), x@),
{
    let (at, found): (usize, bool) = position(items, x.as_str());
    if !found {
        items.insert(at, x.clone());
        assert(views(items@) =~= views(old(items)@).insert(at as int, x@));
    }
}

/// The strings in order, each once.
pub fn distinct_strings(items: &Vec<String>) -> (r: Vec<String>)
    ensures
        views(r@) == distinct_of(views(items@)),
{
    let mut out: Vec<String> = Vec::new();
    let mut i: usize = 0;
    assert(views(out@) =~= Seq::empty());
    assert(views(items@).take(0) =~= Seq::empty());
    while i < items.len()
        invariant
            i <= items@.len(),
            views(out@) == distinct_of(views(items@).take(i as int)),
        decreases items@.len() - i,
    {
        insert(&mut out, &items[i]);
        proof {
            let t = views(items@).take(i + 1);
            assert(t.drop_last() =~= views(items@).take(i as int));
            assert(t.last() == items@[i as int]@);
        }
        i += 1;
    }
    assert(views(items@).take(i as int) =~= views(items@));
    out
}

/// The strings one after the other, with `separator` between them.
pub fn join(items: &Vec<String>, separator: &str) -> (r: String)
    ensures
        r@ == joined(views(items@), separator@),
{
    let mut out = String::new();
    let mut i: usize = 0;
    assert(views(items@).take(0) =~= Seq::empty());
    assert(out@ =~= Seq::empty());
    while i < items.len()
        invariant
            i <= items@.len(),
            out@ == joined(views(items@).take(i as int), separator@),
        decreases items@.len() - i,
    {
        let ghost t = views(items@).take(i + 1);
        assert(t.drop_last() =~= views(items@).take(i as int));
        assert(t.last() == items@[i as int]@);
        if i > 0 {
            out.append(separator);
        }
        out.append(items[i].as_str());
        proof {
            if i == 0 {
                assert(out@ =~= t[0]);
            }
        }
        i += 1;
    }
    assert(views(items@).take(i as int) =~= views(items@));
    out
}

} // verus!
