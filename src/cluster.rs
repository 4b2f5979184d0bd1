//! Grouping hosts into racks from their discovered neighbours.
use vstd::prelude::*;
use vstd::relations::strict_total_ordering;
use vstd::string::*;

use crate::order::{
    char_lt, group_lt, lemma_group_lt_strict_total, lemma_name_lt_strict_total,
    lemma_strictly_sorted_unique, lex_lt, name_lt, strictly_sorted,
};

verus! {

/// The names held by a list of strings.
pub open spec fn names_of(v: Seq<String>) -> Seq<Seq<char>> {
    v.map_values(|s: String| s@)
}

/// The groups held by a list of name lists.
pub open spec fn groups_of(v: Seq<Vec<String>>) -> Seq<Seq<Seq<char>>> {
    v.map_values(|g: Vec<String>| names_of(g@))
}

/// The set of names in a neighbour list.
pub open spec fn name_set(v: Vec<String>) -> Set<Seq<char>> {
    names_of(v@).to_set()
}

/// The map that a list of (host, neighbours) entries describes; later entries win.
pub open spec fn entries_map(s: Seq<(String, Vec<String>)>) -> Map<Seq<char>, Set<Seq<char>>>
    decreases s.len(),
{
    if s.len() == 0 {
        Map::empty()
    } else {
        entries_map(s.drop_last()).insert(s.last().0@, name_set(s.last().1))
    }
}

pub open spec fn distinct_keys(s: Seq<(String, Vec<String>)>) -> bool {
    forall|i: int, j: int| 0 <= i < j < s.len() ==> #[trigger] s[i].0@ != #[trigger] s[j].0@
}

proof fn lemma_entries_map(s: Seq<(String, Vec<String>)>)
    requires
        distinct_keys(s),
    ensures
        forall|k: Seq<char>| #[trigger] entries_map(s).contains_key(k) <==> exists|i: int| 0 <= i < s.len() && s[i].0@ == k,
        forall|i: int| 0 <= i < s.len() ==> entries_map(s)[#[trigger] s[i].0@] == name_set(s[i].1),
        entries_map(s).dom().finite(),
    decreases s.len(),
{
    if s.len() > 0 {
        let t = s.drop_last();
        assert forall|i: int, j: int| 0 <= i < j < t.len() implies #[trigger] t[i].0@ != #[trigger] t[j].0@ by {
            assert(s[i].0@ != s[j].0@);
        }
        lemma_entries_map(t);
        assert forall|k: Seq<char>| #[trigger] entries_map(s).contains_key(k) implies exists|i: int| 0 <= i < s.len() && s[i].0@ == k by {
            if k != s.last().0@ {
                let i = choose|i: int| 0 <= i < t.len() && t[i].0@ == k;
                assert(s[i] == t[i]);
            } else {
                assert(s[s.len() - 1].0@ == k);
            }
        }
        assert forall|k: Seq<char>| (exists|i: int| 0 <= i < s.len() && s[i].0@ == k) implies #[trigger] entries_map(s).contains_key(k) by {
            let i = choose|i: int| 0 <= i < s.len() && s[i].0@ == k;
            if i < s.len() - 1 {
                assert(t[i] == s[i]);
                assert(entries_map(t).contains_key(k));
            }
        }
        assert forall|i: int| 0 <= i < s.len() implies entries_map(s)[#[trigger] s[i].0@] == name_set(s[i].1) by {
            if i < s.len() - 1 {
                assert(s[i] == t[i]);
                assert(s[i].0@ != s[s.len() - 1].0@);
            }
        }
    }
}

/// Host name to the set of names found adjacent to it.
pub struct NeighborSet {
    entries: Vec<(String, Vec<String>)>,
}

impl View for NeighborSet {
    type V = Map<Seq<char>, Set<Seq<char>>>;

    closed spec fn view(&self) -> Map<Seq<char>, Set<Seq<char>>> {
        entries_map(self.entries@)
    }
}

impl NeighborSet {
    pub closed spec fn wf(&self) -> bool {
        distinct_keys(self.entries@)
    }

    /// A set with no hosts.
    pub fn new() -> (r: NeighborSet)
        ensures
            r.wf(),
            r@ == Map::<Seq<char>, Set<Seq<char>>>::empty(),
    {
        NeighborSet { entries: Vec::new() }
    }

    /// Sets the neighbours of `host`, replacing what it had.
    pub fn insert(&mut self, host: String, neighbors: Vec<String>)
        requires
            old(self).wf(),
        ensures
            final(self).wf(),
            final(self)@ == old(self)@.insert(host@, name_set(neighbors)),
    {
        let ghost s = self.entries@;
        proof {
            lemma_entries_map(s);
        }
        let mut i: usize = 0;
        while i < self.entries.len()
            invariant
                i <= self.entries@.len(),
                self.entries@ == s,
                s == old(self).entries@,
                distinct_keys(s),
                forall|a: int| 0 <= a < i ==> #[trigger] s[a].0@ != host@,
            decreases self.entries@.len() - i,
        {
            if self.entries[i].0 == host {
                let ghost e = (host, neighbors);
                assert(s[i as int].0@ == e.0@);
                self.entries.set(i, (host, neighbors));
                proof {
                    let t = self.entries@;
                    lemma_entries_map(s);
                    assert(t == s.update(i as int, e));
                    assert forall|a: int, b: int| 0 <= a < b < t.len() implies #[trigger] t[a].0@ != #[trigger] t[b].0@ by {
                        assert(s[a].0@ != s[b].0@);
                    }
                    lemma_entries_map(t);
                    assert(entries_map(t) =~= entries_map(s).insert(e.0@, name_set(e.1))) by {
                        assert forall|k: Seq<char>| #[trigger] entries_map(t).contains_key(k) == entries_map(s).insert(e.0@, name_set(e.1)).contains_key(k) by {
                            if entries_map(s).contains_key(k) {
                                let p = choose|p: int| 0 <= p < s.len() && s[p].0@ == k;
                                assert(t[p].0@ == k);
                            }
                            if entries_map(t).contains_key(k) {
                                let p = choose|p: int| 0 <= p < t.len() && t[p].0@ == k;
                                assert(s[p].0@ == k);
                            }
                        }
                        assert forall|k: Seq<char>| #[trigger] entries_map(t).contains_key(k) implies entries_map(t)[k] == entries_map(s).insert(e.0@, name_set(e.1))[k] by {
                            let p = choose|p: int| 0 <= p < t.len() && t[p].0@ == k;
                            if p != i {
                                assert(t[p] == s[p]);
                            }
                        }
                    }
                }
                return;
            }
            i = i + 1;
        }
        let ghost e = (host, neighbors);
        self.entries.push((host, neighbors));
        proof {
            let t = self.entries@;
            assert(t.drop_last() =~= s);
            assert forall|a: int, b: int| 0 <= a < b < t.len() implies #[trigger] t[a].0@ != #[trigger] t[b].0@ by {
                if b == t.len() - 1 {
                    assert(s[a].0@ != host@);
                } else {
                    assert(s[a].0@ != s[b].0@);
                }
            }
        }
    }

    /// The number of hosts.
    pub fn len(&self) -> (r: usize)
        requires
            self.wf(),
        ensures
            r == self@.len(),
    {
        proof {
            lemma_entries_map(self.entries@);
            lemma_entries_len(self.entries@);
        }
        self.entries.len()
    }
}

proof fn lemma_entries_len(s: Seq<(String, Vec<String>)>)
    requires
        distinct_keys(s),
    ensures
        entries_map(s).len() == s.len(),
    decreases s.len(),
{
    if s.len() > 0 {
        let t = s.drop_last();
        assert forall|i: int, j: int| 0 <= i < j < t.len() implies #[trigger] t[i].0@ != #[trigger] t[j].0@ by {
            assert(s[i].0@ != s[j].0@);
        }
        lemma_entries_len(t);
        lemma_entries_map(t);
        if entries_map(t).contains_key(s.last().0@) {
            let p = choose|p: int| 0 <= p < t.len() && t[p].0@ == s.last().0@;
            assert(s[p].0@ != s[s.len() - 1].0@);
        }
    }
}

/// Whether `a` comes before `b` in the order of host names.
pub fn name_less(a: &String, b: &String) -> (r: bool)
    ensures
        r == name_lt()(a@, b@),
{
    let sa = a.as_str();
    let sb = b.as_str();
    let la = sa.unicode_len();
    let lb = sb.unicode_len();
    let mut i: usize = 0;
    assert(a@.skip(0) =~= a@);
    assert(b@.skip(0) =~= b@);
    while i < la && i < lb
        invariant
            la == a@.len(),
            lb == b@.len(),
            sa@ == a@,
            sb@ == b@,
            i <= la,
            i <= lb,
            lex_lt(a@, b@, char_lt()) == lex_lt(a@.skip(i as int), b@.skip(i as int), char_lt()),
        decreases la - i,
    {
        let ca = sa.get_char(i);
        let cb = sb.get_char(i);
        assert(a@.skip(i as int)[0] == ca);
        assert(b@.skip(i as int)[0] == cb);
        if (ca as u32) < (cb as u32) {
            return true;
        }
        if ca != cb {
            return false;
        }
        assert(a@.skip(i as int).drop_first() =~= a@.skip(i + 1));
        assert(b@.skip(i as int).drop_first() =~= b@.skip(i + 1));
        i = i + 1;
    }
    i == la && i < lb
}

/// Whether group `a` comes before group `b`: larger first, then by names.
pub fn group_less(a: &Vec<String>, b: &Vec<String>) -> (r: bool)
    ensures
        r == group_lt()(names_of(a@), names_of(b@)),
{
    if a.len() != b.len() {
        return a.len() > b.len();
    }
    let ghost na = names_of(a@);
    let ghost nb = names_of(b@);
    let mut i: usize = 0;
    assert(na.skip(0) =~= na);
    assert(nb.skip(0) =~= nb);
    while i < a.len()
        invariant
            a@.len() == b@.len(),
            na == names_of(a@),
            nb == names_of(b@),
            i <= a@.len(),
            lex_lt(na, nb, name_lt()) == lex_lt(na.skip(i as int), nb.skip(i as int), name_lt()),
        decreases a@.len() - i,
    {
        assert(na.skip(i as int)[0] == a@[i as int]@);
        assert(nb.skip(i as int)[0] == b@[i as int]@);
        if name_less(&a[i], &b[i]) {
            return true;
        }
        if a[i] != b[i] {
            return false;
        }
        assert(na.skip(i as int).drop_first() =~= na.skip(i + 1));
        assert(nb.skip(i as int).drop_first() =~= nb.skip(i + 1));
        i = i + 1;
    }
    false
}

proof fn lemma_insert_to_set<A>(s: Seq<A>, i: int, a: A)
    requires
        0 <= i <= s.len(),
    ensures
        s.insert(i, a).to_set() == s.to_set().insert(a),
{
    let t = s.insert(i, a);
    assert forall|x: A| t.to_set().contains(x) <==> s.to_set().insert(a).contains(x) by {
        if t.to_set().contains(x) {
            let p = choose|p: int| 0 <= p < t.len() && t[p] == x;
            if p < i {
                assert(s[p] == x);
            } else if p > i {
                assert(s[p - 1] == x);
            }
        }
        if s.to_set().contains(x) {
            let p = choose|p: int| 0 <= p < s.len() && s[p] == x;
            if p < i {
                assert(t[p] == x);
            } else {
                assert(t[p + 1] == x);
            }
        }
        if x == a {
            assert(t[i] == a);
        }
    }
    assert(t.to_set() =~= s.to_set().insert(a));
}

/// Adds a name to a strictly sorted list of names, unless it is there already.
fn insert_name(g: &mut Vec<String>, x: &String)
    requires
        strictly_sorted(names_of(old(g)@), name_lt()),
    ensures
        strictly_sorted(names_of(final(g)@), name_lt()),
        names_of(final(g)@).to_set() == names_of(old(g)@).to_set().insert(x@),
{
    proof {
        lemma_name_lt_strict_total();
    }
    let lt = Ghost(name_lt());
    let ghost before = names_of(g@);
    let mut pos: usize = 0;
    while pos < g.len() && name_less(&g[pos], x)
        invariant
            pos <= g@.len(),
            before == names_of(g@),
            lt@ == name_lt(),
            forall|a: int| 0 <= a < pos ==> lt@(#[trigger] before[a], x@),
        decreases g@.len() - pos,
    {
        pos = pos + 1;
    }
    if pos < g.len() && g[pos] == *x {
        assert(before.to_set().contains(x@)) by {
            assert(before[pos as int] == x@);
        }
        assert(before.to_set().insert(x@) =~= before.to_set());
        return;
    }
    let c = x.clone();
    g.insert(pos, c);
    proof {
        let after = names_of(g@);
        assert(after =~= before.insert(pos as int, x@));
        lemma_insert_to_set(before, pos as int, x@);
        if pos < before.len() {
            assert(!lt@(before[pos as int], x@));
            assert(before[pos as int] != x@);
            assert(lt@(x@, before[pos as int]));
        }
        assert forall|a: int, b: int| 0 <= a < b < after.len() implies lt@(#[trigger] after[a], #[trigger] after[b]) by {
            if b < pos {
                assert(lt@(before[a], before[b]));
            } else if b == pos {
            } else if a < pos {
                assert(lt@(before[a], x@));
                if b - 1 > pos {
                    assert(lt@(before[pos as int], before[b - 1]));
                }
                assert(lt@(x@, before[b - 1]));
            } else if a == pos {
                if b - 1 > pos {
                    assert(lt@(before[pos as int], before[b - 1]));
                }
            } else {
                assert(lt@(before[a - 1], before[b - 1]));
            }
        }
    }
}

/// A host and its neighbours as a strictly sorted list of distinct names.
fn candidate_group(host: &String, nbrs: &Vec<String>) -> (g: Vec<String>)
    ensures
        strictly_sorted(names_of(g@), name_lt()),
        names_of(g@).to_set() == name_set(*nbrs).insert(host@),
{
    let mut g: Vec<String> = Vec::new();
    assert(names_of(g@).to_set() =~= Set::<Seq<char>>::empty());
    insert_name(&mut g, host);
    let mut j: usize = 0;
    while j < nbrs.len()
        invariant
            j <= nbrs@.len(),
            strictly_sorted(names_of(g@), name_lt()),
            names_of(g@).to_set() == names_of(nbrs@.subrange(0, j as int)).to_set().insert(host@),
        decreases nbrs@.len() - j,
    {
        insert_name(&mut g, &nbrs[j]);
        assert(names_of(nbrs@.subrange(0, j + 1)) =~= names_of(nbrs@.subrange(0, j as int)).push(nbrs@[j as int]@));
        assert(names_of(nbrs@.subrange(0, j + 1)).to_set() =~= names_of(nbrs@.subrange(0, j as int)).to_set().insert(nbrs@[j as int]@)) by {
            let u = names_of(nbrs@.subrange(0, j as int));
            assert(u.push(nbrs@[j as int]@) =~= u.insert(u.len() as int, nbrs@[j as int]@));
            lemma_insert_to_set(u, u.len() as int, nbrs@[j as int]@);
        }
        j = j + 1;
    }
    assert(nbrs@.subrange(0, nbrs@.len() as int) =~= nbrs@);
    g
}

/// Adds a group to a list of groups strictly sorted in group order, unless it is there already.
fn insert_group(s: &mut Vec<Vec<String>>, x: Vec<String>)
    requires
        strictly_sorted(groups_of(old(s)@), group_lt()),
    ensures
        strictly_sorted(groups_of(final(s)@), group_lt()),
        groups_of(final(s)@).to_set() == groups_of(old(s)@).to_set().insert(names_of(x@)),
{
    proof {
        lemma_group_lt_strict_total();
    }
    let lt = Ghost(group_lt());
    let ghost before = groups_of(s@);
    let ghost xv = names_of(x@);
    let mut pos: usize = 0;
    while pos < s.len() && group_less(&s[pos], &x)
        invariant
            pos <= s@.len(),
            before == groups_of(s@),
            xv == names_of(x@),
            lt@ == group_lt(),
            forall|a: int| 0 <= a < pos ==> lt@(#[trigger] before[a], xv),
        decreases s@.len() - pos,
    {
        pos = pos + 1;
    }
    if pos < s.len() && !group_less(&x, &s[pos]) {
        assert(before[pos as int] == xv) by {
            assert(!lt@(before[pos as int], xv));
            assert(!lt@(xv, before[pos as int]));
        }
        assert(before.to_set().contains(xv));
        assert(before.to_set().insert(xv) =~= before.to_set());
        return;
    }
    s.insert(pos, x);
    proof {
        let after = groups_of(s@);
        assert(after =~= before.insert(pos as int, xv));
        lemma_insert_to_set(before, pos as int, xv);
        assert forall|a: int, b: int| 0 <= a < b < after.len() implies lt@(#[trigger] after[a], #[trigger] after[b]) by {
            if b < pos {
                assert(lt@(before[a], before[b]));
            } else if b == pos {
            } else if a < pos {
                assert(lt@(before[a], xv));
                if b - 1 > pos {
                    assert(lt@(before[pos as int], before[b - 1]));
                }
                assert(lt@(xv, before[b - 1]));
            } else if a == pos {
                if b - 1 > pos {
                    assert(lt@(before[pos as int], before[b - 1]));
                }
            } else {
                assert(lt@(before[a - 1], before[b - 1]));
            }
        }
    }
}

/// The candidate groups of a neighbour map: each host together with its neighbours, as a
/// strictly sorted list of distinct names.
pub open spec fn candidate_groups(m: Map<Seq<char>, Set<Seq<char>>>) -> Set<Seq<Seq<char>>> {
    Set::new(
        |g: Seq<Seq<char>>|
            exists|k: Seq<char>|
                #[trigger] m.contains_key(k) && strictly_sorted(g, name_lt()) && g.to_set() == m[k].insert(k),
    )
}

/// `s` lists the candidate groups of `m` once each, in group order.
pub open spec fn is_group_order(s: Seq<Seq<Seq<char>>>, m: Map<Seq<char>, Set<Seq<char>>>) -> bool {
    strictly_sorted(s, group_lt()) && s.to_set() == candidate_groups(m)
}

/// The candidate groups of `m` in group order.
pub open spec fn ordered_groups(m: Map<Seq<char>, Set<Seq<char>>>) -> Seq<Seq<Seq<char>>> {
    choose|s: Seq<Seq<Seq<char>>>| is_group_order(s, m)
}

/// No member of `g` belongs to an accepted group.
pub open spec fn fits(acc: Seq<Seq<Seq<char>>>, g: Seq<Seq<char>>) -> bool {
    forall|r: int, x: int| 0 <= r < acc.len() && 0 <= x < g.len() ==> !(#[trigger] acc[r]).contains(#[trigger] g[x])
}

/// Walks the groups in order and accepts each one that shares no member with a group
/// accepted before it.
pub open spec fn greedy(s: Seq<Seq<Seq<char>>>) -> Seq<Seq<Seq<char>>>
    decreases s.len(),
{
    if s.len() == 0 {
        Seq::empty()
    } else {
        let acc = greedy(s.drop_last());
        if fits(acc, s.last()) {
            acc.push(s.last())
        } else {
            acc
        }
    }
}

/// The racks of a neighbour map.
pub open spec fn racks_of(m: Map<Seq<char>, Set<Seq<char>>>) -> Seq<Seq<Seq<char>>> {
    greedy(ordered_groups(m))
}

/// `h` belongs to one of the racks.
pub open spec fn placed(racks: Seq<Seq<Seq<char>>>, h: Seq<char>) -> bool {
    exists|r: int| 0 <= r < racks.len() && (#[trigger] racks[r]).contains(h)
}

/// The hosts of `m` that no rack holds.
pub open spec fn unplaced(m: Map<Seq<char>, Set<Seq<char>>>) -> Set<Seq<char>> {
    m.dom().filter(|h: Seq<char>| !placed(racks_of(m), h))
}

/// Why hosts could not be grouped into racks.
#[derive(Debug, PartialEq, Eq)]
pub enum ClusterError {
    /// These hosts ended up in no rack: every group holding them conflicted with a rack
    /// accepted earlier.
    UnplacedHosts(Vec<String>),
}

/// Whether `x` is one of `names`.
fn contains_name(names: &Vec<String>, x: &String) -> (r: bool)
    ensures
        r == names_of(names@).contains(x@),
{
    let mut i: usize = 0;
    while i < names.len()
        invariant
            i <= names@.len(),
            forall|a: int| 0 <= a < i ==> #[trigger] names@[a]@ != x@,
        decreases names@.len() - i,
    {
        if names[i] == *x {
            assert(names_of(names@)[i as int] == x@);
            return true;
        }
        i = i + 1;
    }
    assert forall|a: int| 0 <= a < names_of(names@).len() implies #[trigger] names_of(names@)[a] != x@ by {
        assert(names@[a]@ != x@);
    }
    false
}

/// Applies the greedy walk to groups given in order.
fn accept_groups(groups: Vec<Vec<String>>) -> (r: (Vec<Vec<String>>, Vec<String>))
    ensures
        groups_of(r.0@) == greedy(groups_of(groups@)),
        forall|x: Seq<char>| names_of(r.1@).contains(x) <==> placed(groups_of(r.0@), x),
{
    let mut src = groups;
    let ghost orig = groups_of(src@);
    let total = src.len();
    let mut racks: Vec<Vec<String>> = Vec::new();
    let mut assigned: Vec<String> = Vec::new();
    let mut i: usize = 0;
    while src.len() > 0
        invariant
            i + src@.len() == orig.len(),
            orig.len() == total,
            groups_of(src@) == orig.subrange(i as int, orig.len() as int),
            groups_of(racks@) == greedy(orig.subrange(0, i as int)),
            forall|x: Seq<char>| names_of(assigned@).contains(x) <==> placed(groups_of(racks@), x),
        decreases src@.len(),
    {
        let ghost before_src = src@;
        let g = src.remove(0);
        let ghost gv = names_of(g@);
        assert(groups_of(src@) =~= orig.subrange(i + 1, orig.len() as int)) by {
            assert(groups_of(before_src).drop_first() =~= groups_of(src@));
        }
        assert(gv == orig[i as int]) by {
            assert(groups_of(before_src)[0] == gv);
        }
        let ghost acc = groups_of(racks@);
        let mut conflict = false;
        let mut j: usize = 0;
        while j < g.len()
            invariant
                j <= g@.len(),
                gv == names_of(g@),
                acc == groups_of(racks@),
                forall|x: Seq<char>| names_of(assigned@).contains(x) <==> placed(acc, x),
                conflict == exists|y: int| 0 <= y < j && placed(acc, #[trigger] gv[y]),
            decreases g@.len() - j,
        {
            if contains_name(&assigned, &g[j]) {
                assert(placed(acc, gv[j as int]));
                conflict = true;
            }
            j = j + 1;
        }
        assert(!conflict == fits(acc, gv)) by {
            if !conflict {
                assert forall|r: int, x: int| 0 <= r < acc.len() && 0 <= x < gv.len() implies !(#[trigger] acc[r]).contains(#[trigger] gv[x]) by {
                    if acc[r].contains(gv[x]) {
                        assert(placed(acc, gv[x]));
                    }
                }
            } else {
                let y = choose|y: int| 0 <= y < gv.len() && placed(acc, #[trigger] gv[y]);
                let r = choose|r: int| 0 <= r < acc.len() && (#[trigger] acc[r]).contains(gv[y]);
                assert(acc[r].contains(gv[y]));
            }
        }
        assert(orig.subrange(0, i + 1).drop_last() =~= orig.subrange(0, i as int));
        if !conflict {
            let ghost before_assigned = names_of(assigned@);
            let mut k: usize = 0;
            while k < g.len()
                invariant
                    k <= g@.len(),
                    gv == names_of(g@),
                    names_of(assigned@) == before_assigned + gv.subrange(0, k as int),
                decreases g@.len() - k,
            {
                let c = g[k].clone();
                assert(c@ == gv[k as int]);
                let ghost prev = names_of(assigned@);
                assigned.push(c);
                assert(names_of(assigned@) =~= prev.push(c@));
                assert(names_of(assigned@) =~= before_assigned + gv.subrange(0, k + 1));
                k = k + 1;
            }
            racks.push(g);
            assert(groups_of(racks@) =~= acc.push(gv));
            assert(gv.subrange(0, gv.len() as int) =~= gv);
            assert forall|x: Seq<char>| names_of(assigned@).contains(x) <==> placed(groups_of(racks@), x) by {
                let nr = groups_of(racks@);
                if names_of(assigned@).contains(x) {
                    let p = choose|p: int| 0 <= p < names_of(assigned@).len() && names_of(assigned@)[p] == x;
                    if p < before_assigned.len() {
                        assert(before_assigned.contains(x));
                        let r = choose|r: int| 0 <= r < acc.len() && (#[trigger] acc[r]).contains(x);
                        assert(nr[r] == acc[r]);
                    } else {
                        assert(gv[p - before_assigned.len()] == x);
                        assert(nr[acc.len() as int] == gv);
                        assert(nr[acc.len() as int].contains(x));
                    }
                }
                if placed(nr, x) {
                    let r = choose|r: int| 0 <= r < nr.len() && (#[trigger] nr[r]).contains(x);
                    if r < acc.len() {
                        assert(acc[r] == nr[r]);
                        assert(placed(acc, x));
                        assert(before_assigned.contains(x));
                        let p = choose|p: int| 0 <= p < before_assigned.len() && before_assigned[p] == x;
                        assert(names_of(assigned@)[p] == x);
                    } else {
                        let q = choose|q: int| 0 <= q < gv.len() && gv[q] == x;
                        assert(names_of(assigned@)[before_assigned.len() + q] == x);
                    }
                }
            }
        }
        i = i + 1;
    }
    assert(orig.subrange(0, orig.len() as int) =~= orig);
    (racks, assigned)
}

/// `g` is the candidate group of the entry `e`.
pub open spec fn is_entry_group(g: Seq<Seq<char>>, e: (String, Vec<String>)) -> bool {
    strictly_sorted(g, name_lt()) && g.to_set() == name_set(e.1).insert(e.0@)
}

/// Groups the hosts of `ns` into racks.
///
/// Each host together with its neighbours forms a candidate group, and identical groups
/// count once. Groups are taken larger first, groups of one size by their sorted names,
/// and each group that shares no host with a rack accepted before it becomes a rack.
/// Every rack lists its hosts sorted. Hosts that end up in no rack are an error that
/// names them.
pub fn generate_racks(ns: &NeighborSet) -> (r: Result<Vec<Vec<String>>, ClusterError>)
    requires
        ns.wf(),
    ensures
        is_group_order(ordered_groups(ns@), ns@),
        match r {
            Ok(racks) => groups_of(racks@) == racks_of(ns@) && unplaced(ns@) == Set::<Seq<char>>::empty(),
            Err(ClusterError::UnplacedHosts(hs)) => hs@.len() > 0 && names_of(hs@).to_set() == unplaced(ns@),
        },
{
    let ghost m = ns@;
    let ghost es = ns.entries@;
    proof {
        lemma_entries_map(es);
        lemma_name_lt_strict_total();
        lemma_group_lt_strict_total();
    }
    let mut sorted: Vec<Vec<String>> = Vec::new();
    let mut i: usize = 0;
    while i < ns.entries.len()
        invariant
            i <= es.len(),
            es == ns.entries@,
            strict_total_ordering(name_lt()),
            strictly_sorted(groups_of(sorted@), group_lt()),
            forall|g: Seq<Seq<char>>|
                #[trigger] groups_of(sorted@).to_set().contains(g) <==> exists|a: int|
                    0 <= a < i && is_entry_group(g, #[trigger] es[a]),
        decreases es.len() - i,
    {
        let cg = candidate_group(&ns.entries[i].0, &ns.entries[i].1);
        let ghost cv = names_of(cg@);
        let ghost before = groups_of(sorted@);
        insert_group(&mut sorted, cg);
        assert(is_entry_group(cv, es[i as int]));
        assert forall|g: Seq<Seq<char>>|
            #[trigger] groups_of(sorted@).to_set().contains(g) <==> exists|a: int|
                0 <= a < i + 1 && is_entry_group(g, #[trigger] es[a]) by {
            if is_entry_group(g, es[i as int]) {
                lemma_strictly_sorted_unique(g, cv, name_lt());
            }
            if groups_of(sorted@).to_set().contains(g) && g != cv {
                assert(before.to_set().contains(g));
            }
        }
        i = i + 1;
    }
    let ghost sv = groups_of(sorted@);
    assert(sv.to_set() =~= candidate_groups(m)) by {
        assert forall|g: Seq<Seq<char>>| sv.to_set().contains(g) implies candidate_groups(m).contains(g) by {
            let a = choose|a: int| 0 <= a < es.len() && is_entry_group(g, #[trigger] es[a]);
            assert(m.contains_key(es[a].0@));
        }
        assert forall|g: Seq<Seq<char>>| candidate_groups(m).contains(g) implies sv.to_set().contains(g) by {
            let k = choose|k: Seq<char>| #[trigger] m.contains_key(k) && strictly_sorted(g, name_lt()) && g.to_set() == m[k].insert(k);
            let a = choose|a: int| 0 <= a < es.len() && es[a].0@ == k;
            assert(is_entry_group(g, es[a]));
        }
    }
    assert(is_group_order(sv, m));
    assert(is_group_order(ordered_groups(m), m));
    proof {
        lemma_strictly_sorted_unique(sv, ordered_groups(m), group_lt());
    }
    let (racks, assigned) = accept_groups(sorted);
    let ghost rv = groups_of(racks@);
    assert(rv == racks_of(m));

    let mut missing: Vec<String> = Vec::new();
    let mut i: usize = 0;
    while i < ns.entries.len()
        invariant
            i <= es.len(),
            es == ns.entries@,
            forall|x: Seq<char>| names_of(assigned@).contains(x) <==> placed(rv, x),
            forall|x: Seq<char>|
                #[trigger] names_of(missing@).to_set().contains(x) <==> exists|a: int|
                    0 <= a < i && (#[trigger] es[a]).0@ == x && !placed(rv, x),
        decreases es.len() - i,
    {
        let ghost before = names_of(missing@);
        if !contains_name(&assigned, &ns.entries[i].0) {
            let c = ns.entries[i].0.clone();
            missing.push(c);
            proof {
                let after = names_of(missing@);
                assert(after =~= before.insert(before.len() as int, c@));
                lemma_insert_to_set(before, before.len() as int, c@);
            }
        }
        assert forall|x: Seq<char>|
            #[trigger] names_of(missing@).to_set().contains(x) <==> exists|a: int|
                0 <= a < i + 1 && (#[trigger] es[a]).0@ == x && !placed(rv, x) by {
            if names_of(missing@).to_set().contains(x) && x != es[i as int].0@ {
                assert(before.to_set().contains(x));
            }
        }
        i = i + 1;
    }
    assert(names_of(missing@).to_set() =~= unplaced(m));
    if missing.len() > 0 {
        Err(ClusterError::UnplacedHosts(missing))
    } else {
        assert(unplaced(m) =~= Set::<Seq<char>>::empty()) by {
            assert forall|x: Seq<char>| !unplaced(m).contains(x) by {
                if unplaced(m).contains(x) {
                    assert(names_of(missing@).to_set().contains(x));
                    let p = choose|p: int| 0 <= p < names_of(missing@).len() && names_of(missing@)[p] == x;
                }
            }
        }
        Ok(racks)
    }
}

/// Clustering is deterministic: the candidate groups of a neighbour map have exactly one
/// listing in group order, whatever order the hosts were given in, so the racks are a
/// function of the neighbour map alone.
pub proof fn lemma_clustering_deterministic(
    m: Map<Seq<char>, Set<Seq<char>>>,
    s1: Seq<Seq<Seq<char>>>,
    s2: Seq<Seq<Seq<char>>>,
)
    requires
        is_group_order(s1, m),
        is_group_order(s2, m),
    ensures
        s1 == s2,
        greedy(s1) == racks_of(m),
{
    lemma_group_lt_strict_total();
    lemma_strictly_sorted_unique(s1, s2, group_lt());
    lemma_strictly_sorted_unique(s1, ordered_groups(m), group_lt());
}

/// Every accepted group is one of the groups walked.
proof fn lemma_greedy_from(s: Seq<Seq<Seq<char>>>)
    ensures
        forall|r: int| 0 <= r < greedy(s).len() ==> s.contains(#[trigger] greedy(s)[r]),
    decreases s.len(),
{
    if s.len() > 0 {
        let t = s.drop_last();
        lemma_greedy_from(t);
        assert forall|r: int| 0 <= r < greedy(s).len() implies s.contains(#[trigger] greedy(s)[r]) by {
            if r < greedy(t).len() {
                let p = choose|p: int| 0 <= p < t.len() && t[p] == greedy(t)[r];
                assert(s[p] == t[p]);
            } else {
                assert(s[s.len() - 1] == s.last());
            }
        }
    }
}

/// No name belongs to two accepted groups.
proof fn lemma_greedy_disjoint(s: Seq<Seq<Seq<char>>>)
    ensures
        forall|r1: int, r2: int, x: Seq<char>|
            #![trigger greedy(s)[r1].contains(x), greedy(s)[r2].contains(x)]
            0 <= r1 < greedy(s).len() && 0 <= r2 < greedy(s).len() && r1 != r2 && greedy(s)[r1].contains(x)
                ==> !greedy(s)[r2].contains(x),
    decreases s.len(),
{
    if s.len() > 0 {
        let t = s.drop_last();
        lemma_greedy_disjoint(t);
        let acc = greedy(t);
        if fits(acc, s.last()) {
            let g = greedy(s);
            assert forall|r1: int, r2: int, x: Seq<char>|
                #![trigger g[r1].contains(x), g[r2].contains(x)]
                0 <= r1 < g.len() && 0 <= r2 < g.len() && r1 != r2 && g[r1].contains(x)
                    implies !g[r2].contains(x) by {
                if r1 == acc.len() {
                    let q = choose|q: int| 0 <= q < s.last().len() && s.last()[q] == x;
                    assert(!acc[r2].contains(s.last()[q]));
                } else if r2 == acc.len() {
                    if g[r2].contains(x) {
                        let q = choose|q: int| 0 <= q < s.last().len() && s.last()[q] == x;
                        assert(!acc[r1].contains(s.last()[q]));
                    }
                } else {
                    assert(g[r1] == acc[r1] && g[r2] == acc[r2]);
                }
            }
        }
    }
}

/// The racks partition the hosts. For any result of clustering, no host belongs to two
/// racks, each rack lists distinct names in sorted order, every host belongs to a rack,
/// and every rack member is a host or a listed neighbour of one. Where every listed
/// neighbour is itself a host, the members of the racks are exactly the hosts.
pub proof fn lemma_racks_partition(m: Map<Seq<char>, Set<Seq<char>>>, racks: Seq<Seq<Seq<char>>>)
    requires
        is_group_order(ordered_groups(m), m),
        racks == racks_of(m),
        unplaced(m) == Set::<Seq<char>>::empty(),
    ensures
        forall|r1: int, r2: int, x: Seq<char>|
            #![trigger racks[r1].contains(x), racks[r2].contains(x)]
            0 <= r1 < racks.len() && 0 <= r2 < racks.len() && r1 != r2 && racks[r1].contains(x)
                ==> !racks[r2].contains(x),
        forall|r: int| 0 <= r < racks.len() ==> strictly_sorted(#[trigger] racks[r], name_lt()),
        forall|h: Seq<char>| m.contains_key(h) ==> #[trigger] placed(racks, h),
        forall|r: int, x: Seq<char>|
            #![trigger racks[r].contains(x)]
            0 <= r < racks.len() && racks[r].contains(x) ==> m.contains_key(x) || exists|k: Seq<char>|
                #[trigger] m.contains_key(k) && m[k].contains(x),
        (forall|k: Seq<char>, x: Seq<char>| m.contains_key(k) && #[trigger] m[k].contains(x) ==> m.contains_key(x))
            ==> forall|x: Seq<char>| #[trigger] placed(racks, x) <==> m.contains_key(x),
{
    let s = ordered_groups(m);
    lemma_greedy_disjoint(s);
    lemma_greedy_from(s);
    assert forall|r: int| 0 <= r < racks.len() implies strictly_sorted(#[trigger] racks[r], name_lt())
        && exists|k: Seq<char>| #[trigger] m.contains_key(k) && racks[r].to_set() == m[k].insert(k) by {
        let p = choose|p: int| 0 <= p < s.len() && s[p] == racks[r];
        assert(s.to_set().contains(s[p]));
        assert(candidate_groups(m).contains(racks[r]));
    }
    assert forall|h: Seq<char>| m.contains_key(h) implies #[trigger] placed(racks, h) by {
        if !placed(racks, h) {
            assert(unplaced(m).contains(h));
        }
    }
    assert forall|r: int, x: Seq<char>|
        #![trigger racks[r].contains(x)]
        0 <= r < racks.len() && racks[r].contains(x) implies m.contains_key(x) || exists|k: Seq<char>|
            #[trigger] m.contains_key(k) && m[k].contains(x) by {
        let k = choose|k: Seq<char>| #[trigger] m.contains_key(k) && racks[r].to_set() == m[k].insert(k);
        assert(racks[r].to_set().contains(x));
        if x != k {
            assert(m[k].contains(x));
        }
    }
}

} // verus!
