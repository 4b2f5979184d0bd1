//! Unit names of the deployment layer: an application name and a unit number, written
//! `name/number`.
use vstd::prelude::*;
use vstd::string::*;

verus! {

/// The value of a decimal digit character.
pub open spec fn digit_value(c: char) -> nat {
    (c as int - '0' as int) as nat
}

pub open spec fn is_digit(c: char) -> bool {
    '0' <= c && c <= '9'
}

/// The value of a string of decimal digits.
pub open spec fn digits_value(s: Seq<char>) -> nat
    decreases s.len(),
{
    if s.len() == 0 {
        0
    } else {
        digits_value(s.drop_last()) * 10 + digit_value(s.last())
    }
}

/// The number that `s` writes: an optional `+` and one or more decimal digits, with a
/// value that fits in `usize`.
pub open spec fn index_value(s: Seq<char>) -> Option<nat> {
    let d = if s.len() > 0 && s[0] == '+' { s.drop_first() } else { s };
    if d.len() > 0 && (forall|i: int| 0 <= i < d.len() ==> is_digit(#[trigger] d[i])) && digits_value(d)
        <= usize::MAX {
        Some(digits_value(d))
    } else {
        None
    }
}

/// Relies on `usize`'s `FromStr`: an optional `+` followed by decimal digits only, whose
/// value fits; anything else is an error.
#[verifier::external_body]
fn parse_index(s: &str) -> (r: Option<usize>)
    ensures
        r matches Some(v) ==> index_value(s@) == Some(v as nat),
        r is None ==> index_value(s@) is None,
{
    s.parse::<usize>().ok()
}

/// The position of the first `c` in `s`, if any.
pub open spec fn first_index(s: Seq<char>, c: char) -> Option<int> {
    if exists|i: int| 0 <= i < s.len() && s[i] == c {
        Some(choose|i: int| 0 <= i < s.len() && s[i] == c && forall|j: int| 0 <= j < i ==> s[j] != c)
    } else {
        None
    }
}

/// The name and number text of a unit name: what precedes the first `/`, and what
/// follows it up to the next `/` or the end.
pub open spec fn unit_parts(s: Seq<char>) -> Option<(Seq<char>, Seq<char>)> {
    match first_index(s, '/') {
        None => None,
        Some(p) => {
            let rest = s.subrange(p + 1, s.len() as int);
            let q = match first_index(rest, '/') {
                Some(q) => q,
                None => rest.len() as int,
            };
            Some((s.subrange(0, p), rest.subrange(0, q)))
        },
    }
}

/// The first `c` at or after `from`, or the end of the string.
fn find_from(s: &str, c: char, from: usize) -> (r: usize)
    requires
        from <= s@.len(),
    ensures
        from <= r <= s@.len(),
        r < s@.len() ==> s@[r as int] == c,
        forall|j: int| from <= j < r ==> s@[j] != c,
{
    let n = s.unicode_len();
    let mut i = from;
    while i < n
        invariant
            n == s@.len(),
            from <= i <= n,
            forall|j: int| from <= j < i ==> s@[j] != c,
        decreases n - i,
    {
        if s.get_char(i) == c {
            return i;
        }
        i = i + 1;
    }
    i
}

proof fn lemma_first_index(s: Seq<char>, c: char, p: int)
    requires
        0 <= p <= s.len(),
        p < s.len() ==> s[p] == c,
        forall|j: int| 0 <= j < p ==> s[j] != c,
    ensures
        p < s.len() ==> first_index(s, c) == Some(p),
        p == s.len() ==> first_index(s, c) is None,
{
    if p < s.len() {
        let q = choose|i: int| 0 <= i < s.len() && s[i] == c && forall|j: int| 0 <= j < i ==> s[j] != c;
        assert(0 <= q < s.len() && s[q] == c && forall|j: int| 0 <= j < q ==> s[j] != c);
        if q < p {
            assert(s[q] != c);
        } else if q > p {
            assert(s[p] != c);
        }
    }
}

/// Splits a unit name such as `ceph-osd/3` into its application name and unit number.
/// Nothing comes back when there is no `/` or the number is not a valid index.
pub fn parse_unit(unit: &str) -> (r: Option<(String, usize)>)
    ensures
        match r {
            Some((name, id)) => unit_parts(unit@) matches Some((n, t)) && name@ == n && index_value(t) == Some(id as nat),
            None => unit_parts(unit@) is None || index_value(unit_parts(unit@)->Some_0.1) is None,
        },
{
    let n = unit.unicode_len();
    let p = find_from(unit, '/', 0);
    proof {
        lemma_first_index(unit@, '/', p as int);
    }
    if p == n {
        return None;
    }
    let q = find_from(unit, '/', p + 1);
    let ghost rest = unit@.subrange(p + 1, n as int);
    proof {
        lemma_first_index(rest, '/', q - (p + 1));
    }
    let name = unit.substring_char(0, p);
    let text = unit.substring_char(p + 1, q);
    assert(text@ =~= rest.subrange(0, q - (p + 1)));
    match parse_index(text) {
        Some(id) => Some((name.to_string(), id)),
        None => None,
    }
}

} // verus!
