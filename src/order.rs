//! Strict total orders on host names and on groups of host names.
use vstd::prelude::*;
use vstd::relations::strict_total_ordering;

verus! {

/// Lexicographic order on sequences, lifted from an order on their elements.
pub open spec fn lex_lt<A>(a: Seq<A>, b: Seq<A>, lt: spec_fn(A, A) -> bool) -> bool
    decreases a.len(),
{
    if a.len() == 0 {
        b.len() > 0
    } else if b.len() == 0 {
        false
    } else if lt(a[0], b[0]) {
        true
    } else if a[0] == b[0] {
        lex_lt(a.drop_first(), b.drop_first(), lt)
    } else {
        false
    }
}

pub open spec fn lex<A>(lt: spec_fn(A, A) -> bool) -> spec_fn(Seq<A>, Seq<A>) -> bool {
    |a: Seq<A>, b: Seq<A>| lex_lt(a, b, lt)
}

proof fn lemma_lex_irreflexive<A>(a: Seq<A>, lt: spec_fn(A, A) -> bool)
    requires
        strict_total_ordering(lt),
    ensures
        !lex_lt(a, a, lt),
    decreases a.len(),
{
    if a.len() > 0 {
        assert(!lt(a[0], a[0]));
        lemma_lex_irreflexive(a.drop_first(), lt);
    }
}

proof fn lemma_lex_asymmetric<A>(a: Seq<A>, b: Seq<A>, lt: spec_fn(A, A) -> bool)
    requires
        strict_total_ordering(lt),
        lex_lt(a, b, lt),
    ensures
        !lex_lt(b, a, lt),
    decreases a.len(),
{
    if a.len() > 0 && b.len() > 0 {
        if lt(a[0], b[0]) {
            assert(!lt(b[0], a[0]) || a[0] == b[0]);
            if a[0] == b[0] {
                assert(!lt(a[0], a[0]));
            }
        } else {
            lemma_lex_asymmetric(a.drop_first(), b.drop_first(), lt);
        }
    }
}

proof fn lemma_lex_transitive<A>(a: Seq<A>, b: Seq<A>, c: Seq<A>, lt: spec_fn(A, A) -> bool)
    requires
        strict_total_ordering(lt),
        lex_lt(a, b, lt),
        lex_lt(b, c, lt),
    ensures
        lex_lt(a, c, lt),
    decreases a.len(),
{
    if a.len() > 0 && b.len() > 0 && c.len() > 0 {
        if a[0] == b[0] && b[0] == c[0] {
            lemma_lex_transitive(a.drop_first(), b.drop_first(), c.drop_first(), lt);
        } else if lt(a[0], b[0]) && lt(b[0], c[0]) {
            assert(lt(a[0], c[0]));
        }
    }
}

proof fn lemma_lex_connected<A>(a: Seq<A>, b: Seq<A>, lt: spec_fn(A, A) -> bool)
    requires
        strict_total_ordering(lt),
        a != b,
    ensures
        lex_lt(a, b, lt) || lex_lt(b, a, lt),
    decreases a.len(),
{
    if a.len() > 0 && b.len() > 0 {
        if a[0] == b[0] {
            if a.drop_first() == b.drop_first() {
                assert(a =~= seq![a[0]] + a.drop_first());
                assert(b =~= seq![b[0]] + b.drop_first());
            }
            lemma_lex_connected(a.drop_first(), b.drop_first(), lt);
        }
    } else if a.len() == 0 && b.len() == 0 {
        assert(a =~= b);
    }
}

/// Lexicographic order over a strict total order is a strict total order.
pub proof fn lemma_lex_strict_total<A>(lt: spec_fn(A, A) -> bool)
    requires
        strict_total_ordering(lt),
    ensures
        strict_total_ordering(lex(lt)),
{
    let l = lex(lt);
    assert forall|x: Seq<A>| #[trigger] l(x, x) == false by {
        lemma_lex_irreflexive(x, lt);
    }
    assert forall|x: Seq<A>, y: Seq<A>| #[trigger] l(x, y) && #[trigger] l(y, x) implies x == y by {
        lemma_lex_asymmetric(x, y, lt);
    }
    assert forall|x: Seq<A>, y: Seq<A>, z: Seq<A>| #[trigger] l(x, y) && #[trigger] l(y, z) implies l(x, z) by {
        lemma_lex_transitive(x, y, z, lt);
    }
    assert forall|x: Seq<A>, y: Seq<A>| x != y implies #[trigger] l(x, y) || #[trigger] l(y, x) by {
        lemma_lex_connected(x, y, lt);
    }
}

/// Characters ordered by code point.
pub open spec fn char_lt() -> spec_fn(char, char) -> bool {
    |a: char, b: char| (a as int) < (b as int)
}

/// Host names in lexicographic order of their characters.
pub open spec fn name_lt() -> spec_fn(Seq<char>, Seq<char>) -> bool {
    lex(char_lt())
}

/// Groups of names: larger groups first, groups of one size in lexicographic order.
pub open spec fn group_lt() -> spec_fn(Seq<Seq<char>>, Seq<Seq<char>>) -> bool {
    |a: Seq<Seq<char>>, b: Seq<Seq<char>>|
        a.len() > b.len() || (a.len() == b.len() && lex_lt(a, b, name_lt()))
}

pub proof fn lemma_name_lt_strict_total()
    ensures
        strict_total_ordering(name_lt()),
{
    let c = char_lt();
    assert forall|x: char, y: char| x != y implies #[trigger] c(x, y) || #[trigger] c(y, x) by {
        assert((x as int) != (y as int));
    }
    assert forall|x: char, y: char| #[trigger] c(x, y) && #[trigger] c(y, x) implies x == y by {}
    lemma_lex_strict_total(c);
}

pub proof fn lemma_group_lt_strict_total()
    ensures
        strict_total_ordering(group_lt()),
{
    lemma_name_lt_strict_total();
    lemma_lex_strict_total(name_lt());
    let g = group_lt();
    let l = lex(name_lt());
    assert forall|x: Seq<Seq<char>>| #[trigger] g(x, x) == false by {
        assert(!l(x, x));
    }
    assert forall|x: Seq<Seq<char>>, y: Seq<Seq<char>>| #[trigger] g(x, y) && #[trigger] g(y, x) implies x == y by {
        assert(l(x, y) && l(y, x));
    }
    assert forall|x: Seq<Seq<char>>, y: Seq<Seq<char>>, z: Seq<Seq<char>>|
        #[trigger] g(x, y) && #[trigger] g(y, z) implies g(x, z) by {
        if x.len() == y.len() && y.len() == z.len() {
            assert(l(x, y) && l(y, z));
        }
    }
    assert forall|x: Seq<Seq<char>>, y: Seq<Seq<char>>| x != y implies #[trigger] g(x, y) || #[trigger] g(y, x) by {
        if x.len() == y.len() {
            assert(l(x, y) || l(y, x));
        }
    }
}

/// A sequence whose elements strictly increase.
pub open spec fn strictly_sorted<A>(s: Seq<A>, lt: spec_fn(A, A) -> bool) -> bool {
    forall|i: int, j: int| 0 <= i < j < s.len() ==> lt(#[trigger] s[i], #[trigger] s[j])
}

/// Two strictly sorted sequences with the same elements are the same sequence.
pub proof fn lemma_strictly_sorted_unique<A>(a: Seq<A>, b: Seq<A>, lt: spec_fn(A, A) -> bool)
    requires
        strict_total_ordering(lt),
        strictly_sorted(a, lt),
        strictly_sorted(b, lt),
        a.to_set() == b.to_set(),
    ensures
        a == b,
    decreases a.len(),
{
    if a.len() == 0 {
        if b.len() > 0 {
            assert(b.to_set().contains(b[0]));
        }
        assert(a =~= b);
    } else if b.len() == 0 {
        assert(a.to_set().contains(a[0]));
    } else {
        // The first elements are the least of the common set.
        assert(b.to_set().contains(a[0]));
        let i = choose|i: int| 0 <= i < b.len() && b[i] == a[0];
        assert(a.to_set().contains(b[0]));
        let j = choose|j: int| 0 <= j < a.len() && a[j] == b[0];
        if i > 0 {
            assert(lt(b[0], b[i]));
            if j > 0 {
                assert(lt(a[0], a[j]));
            }
            assert(!lt(a[0], a[0]));
        }
        assert(a[0] == b[0]);
        let at = a.drop_first();
        let bt = b.drop_first();
        assert(at.to_set() =~= bt.to_set()) by {
            assert forall|x: A| at.to_set().contains(x) implies bt.to_set().contains(x) by {
                let p = choose|p: int| 0 <= p < at.len() && at[p] == x;
                assert(a[p + 1] == x);
                assert(lt(a[0], a[p + 1]));
                assert(b.to_set().contains(x));
                let q = choose|q: int| 0 <= q < b.len() && b[q] == x;
                if q == 0 {
                    assert(!lt(x, x));
                }
                assert(bt[q - 1] == x);
            }
            assert forall|x: A| bt.to_set().contains(x) implies at.to_set().contains(x) by {
                let p = choose|p: int| 0 <= p < bt.len() && bt[p] == x;
                assert(b[p + 1] == x);
                assert(lt(b[0], b[p + 1]));
                assert(a.to_set().contains(x));
                let q = choose|q: int| 0 <= q < a.len() && a[q] == x;
                if q == 0 {
                    assert(!lt(x, x));
                }
                assert(at[q - 1] == x);
            }
        }
        assert forall|p: int, q: int| 0 <= p < q < at.len() implies lt(#[trigger] at[p], #[trigger] at[q]) by {
            assert(lt(a[p + 1], a[q + 1]));
        }
        assert forall|p: int, q: int| 0 <= p < q < bt.len() implies lt(#[trigger] bt[p], #[trigger] bt[q]) by {
            assert(lt(b[p + 1], b[q + 1]));
        }
        lemma_strictly_sorted_unique(at, bt, lt);
        assert(a =~= seq![a[0]] + at);
        assert(b =~= seq![b[0]] + bt);
    }
}

} // verus!
