//! Names as character sequences: the order in which aliases are kept.

use vstd::prelude::*;
use vstd::std_specs::iter::IteratorSpec;

verus! {

/// Strict lexicographic order on character sequences, by code point.
///
/// A proper prefix comes before the longer sequence; otherwise the first
/// position at which the two differ decides.
pub open spec fn precedes(a: Seq<char>, b: Seq<char>) -> bool
    decreases a.len(),
{
    if b.len() == 0 {
        false
    } else if a.len() == 0 {
        true
    } else if a[0] == b[0] {
        precedes(a.drop_first(), b.drop_first())
    } else {
        (a[0] as int) < (b[0] as int)
    }
}

/// A sequence of names in strictly ascending order. Strictness rules out duplicates.
pub open spec fn strictly_sorted(s: Seq<Seq<char>>) -> bool {
    forall|i: int, j: int| 0 <= i < j < s.len() ==> precedes(#[trigger] s[i], #[trigger] s[j])
}

/// No name comes before itself.
pub proof fn lemma_precedes_irreflexive(a: Seq<char>)
    ensures
        !precedes(a, a),
    decreases a.len(),
{
    if a.len() > 0 {
        lemma_precedes_irreflexive(a.drop_first());
    }
}

/// The order is transitive.
pub proof fn lemma_precedes_transitive(a: Seq<char>, b: Seq<char>, c: Seq<char>)
    requires
        precedes(a, b),
        precedes(b, c),
    ensures
        precedes(a, c),
    decreases a.len(),
{
    if a.len() > 0 && a[0] == b[0] && b[0] == c[0] {
        lemma_precedes_transitive(a.drop_first(), b.drop_first(), c.drop_first());
    }
}

/// Of two different names, one comes before the other.
pub proof fn lemma_precedes_total(a: Seq<char>, b: Seq<char>)
    ensures
        precedes(a, b) || a == b || precedes(b, a),
    decreases a.len(),
{
    if a.len() == 0 || b.len() == 0 {
        if a.len() == 0 && b.len() == 0 {
            assert(a =~= b);
        }
    } else if a[0] == b[0] {
        lemma_precedes_total(a.drop_first(), b.drop_first());
        if a.drop_first() == b.drop_first() {
            assert(a =~= seq![a[0]] + a.drop_first());
            assert(b =~= seq![b[0]] + b.drop_first());
        }
    } else {
        assert(a[0] as int != b[0] as int);
    }
}

/// Two names never come before each other.
pub proof fn lemma_precedes_asymmetric(a: Seq<char>, b: Seq<char>)
    requires
        precedes(a, b),
    ensures
        !precedes(b, a),
        a != b,
{
    lemma_precedes_irreflexive(a);
    if precedes(b, a) {
        lemma_precedes_transitive(a, b, a);
    }
}

/// A set of names has at most one strictly ascending arrangement.
pub proof fn lemma_sorted_unique(s: Seq<Seq<char>>, t: Seq<Seq<char>>)
    requires
        strictly_sorted(s),
        strictly_sorted(t),
        s.to_set() == t.to_set(),
    ensures
        s == t,
    decreases s.len(),
{
    if s.len() == 0 {
        if t.len() > 0 {
            assert(t.to_set().contains(t[0]));
            assert(s.to_set().contains(t[0]));
        }
        assert(s =~= t);
    } else if t.len() == 0 {
        assert(s.to_set().contains(s[0]));
        assert(t.to_set().contains(s[0]));
    } else {
        // The last element of each is the greatest name of the shared set.
        let x = s.last();
        let y = t.last();
        assert(s.to_set().contains(x));
        assert(t.to_set().contains(x));
        assert(t.to_set().contains(y));
        assert(s.to_set().contains(y));
        let i = choose|i: int| 0 <= i < t.len() && t[i] == x;
        let j = choose|j: int| 0 <= j < s.len() && s[j] == y;
        if x != y {
            assert(i < t.len() - 1);
            assert(precedes(t[i], t[t.len() - 1]));
            assert(j < s.len() - 1);
            assert(precedes(s[j], s[s.len() - 1]));
            lemma_precedes_asymmetric(x, y);
        }
        let s1 = s.drop_last();
        let t1 = t.drop_last();
        assert forall|e: Seq<char>| s1.to_set().contains(e) <==> t1.to_set().contains(e) by {
            if s1.to_set().contains(e) {
                let k = choose|k: int| 0 <= k < s1.len() && s1[k] == e;
                assert(s[k] == e);
                assert(precedes(s[k], s[s.len() - 1]));
                lemma_precedes_asymmetric(e, x);
                assert(s.to_set().contains(e));
                assert(t.to_set().contains(e));
                let m = choose|m: int| 0 <= m < t.len() && t[m] == e;
                assert(t1[m] == e);
            }
            if t1.to_set().contains(e) {
                let k = choose|k: int| 0 <= k < t1.len() && t1[k] == e;
                assert(t[k] == e);
                assert(precedes(t[k], t[t.len() - 1]));
                lemma_precedes_asymmetric(e, y);
                assert(t.to_set().contains(e));
                assert(s.to_set().contains(e));
                let m = choose|m: int| 0 <= m < s.len() && s[m] == e;
                assert(s1[m] == e);
            }
        }
        assert(s1.to_set() =~= t1.to_set());
        assert(strictly_sorted(s1)) by {
            assert forall|a: int, b: int| 0 <= a < b < s1.len() implies precedes(
                #[trigger] s1[a],
                #[trigger] s1[b],
            ) by {
                assert(precedes(s[a], s[b]));
            }
        }
        assert(strictly_sorted(t1)) by {
            assert forall|a: int, b: int| 0 <= a < b < t1.len() implies precedes(
                #[trigger] t1[a],
                #[trigger] t1[b],
            ) by {
                assert(precedes(t[a], t[b]));
            }
        }
        lemma_sorted_unique(s1, t1);
        assert(s =~= s1.push(x));
        assert(t =~= t1.push(y));
    }
}

/// The strictly ascending arrangement of a set of names.
///
/// A set has at most one such arrangement, and a finite set has one; of any
/// other set nothing is said.
pub open spec fn ascending(keys: Set<Seq<char>>) -> Seq<Seq<char>> {
    choose|s: Seq<Seq<char>>| strictly_sorted(s) && s.to_set() == keys
}

/// A strictly ascending list is the ascending arrangement of its own names.
pub proof fn lemma_ascending_of_sorted(s: Seq<Seq<char>>)
    requires
        strictly_sorted(s),
    ensures
        ascending(s.to_set()) == s,
{
    let t = ascending(s.to_set());
    assert(strictly_sorted(s) && s.to_set() == s.to_set());
    lemma_sorted_unique(s, t);
}

/// The names of an ascending list together with one more name can be
/// arranged in ascending order again.
pub proof fn lemma_ascending_with(s: Seq<Seq<char>>, key: Seq<char>)
    requires
        strictly_sorted(s),
        !s.contains(key),
    ensures
        strictly_sorted(ascending(s.to_set().insert(key))),
        ascending(s.to_set().insert(key)).to_set() == s.to_set().insert(key),
    decreases s.len(),
{
    let goal = s.to_set().insert(key);
    let t: Seq<Seq<char>>;
    if s.len() == 0 {
        t = seq![key];
        assert(t.to_set() =~= goal) by {
            assert(t[0] == key);
        }
    } else {
        let top = s.last();
        let rest = s.drop_last();
        assert(s.contains(top));
        lemma_precedes_total(top, key);
        if precedes(top, key) {
            t = s.push(key);
            assert forall|i: int, j: int| 0 <= i < j < t.len() implies precedes(
                #[trigger] t[i],
                #[trigger] t[j],
            ) by {
                if j < s.len() {
                    assert(precedes(s[i], s[j]));
                } else if i < s.len() - 1 {
                    assert(precedes(s[i], s[s.len() - 1]));
                    lemma_precedes_transitive(s[i], top, key);
                }
            }
            assert(t.to_set() =~= goal) by {
                assert forall|e: Seq<char>| t.to_set().contains(e) <==> goal.contains(e) by {
                    if t.contains(e) {
                        let k = choose|k: int| 0 <= k < t.len() && t[k] == e;
                        if k < s.len() {
                            assert(s[k] == e);
                        }
                    }
                    if s.contains(e) {
                        let k = choose|k: int| 0 <= k < s.len() && s[k] == e;
                        assert(t[k] == e);
                    }
                    if e == key {
                        assert(t[s.len() as int] == e);
                    }
                }
            }
        } else {
            assert(strictly_sorted(rest)) by {
                assert forall|a: int, b: int| 0 <= a < b < rest.len() implies precedes(
                    #[trigger] rest[a],
                    #[trigger] rest[b],
                ) by {
                    assert(precedes(s[a], s[b]));
                }
            }
            assert(!rest.contains(key)) by {
                if rest.contains(key) {
                    let k = choose|k: int| 0 <= k < rest.len() && rest[k] == key;
                    assert(s[k] == key);
                }
            }
            lemma_ascending_with(rest, key);
            let lower = ascending(rest.to_set().insert(key));
            t = lower.push(top);
            assert forall|i: int, j: int| 0 <= i < j < t.len() implies precedes(
                #[trigger] t[i],
                #[trigger] t[j],
            ) by {
                if j < lower.len() {
                    assert(precedes(lower[i], lower[j]));
                } else {
                    assert(lower.to_set().contains(lower[i]));
                    if lower[i] != key {
                        assert(rest.to_set().contains(lower[i]));
                        let k = choose|k: int| 0 <= k < rest.len() && rest[k] == lower[i];
                        assert(precedes(s[k], s[s.len() - 1]));
                    }
                }
            }
            assert(t.to_set() =~= goal) by {
                assert forall|e: Seq<char>| t.to_set().contains(e) <==> goal.contains(e) by {
                    if t.contains(e) {
                        let k = choose|k: int| 0 <= k < t.len() && t[k] == e;
                        if k < lower.len() {
                            assert(lower.to_set().contains(lower[k]));
                            if e != key {
                                assert(rest.to_set().contains(e));
                                let m = choose|m: int| 0 <= m < rest.len() && rest[m] == e;
                                assert(s[m] == e);
                            }
                        }
                    }
                    if s.contains(e) {
                        let k = choose|k: int| 0 <= k < s.len() && s[k] == e;
                        if k < rest.len() {
                            assert(rest[k] == e);
                            assert(rest.to_set().insert(key).contains(e));
                            assert(lower.to_set().contains(e));
                            let m = choose|m: int| 0 <= m < lower.len() && lower[m] == e;
                            assert(t[m] == e);
                        } else {
                            assert(t[lower.len() as int] == e);
                        }
                    }
                    if e == key {
                        assert(rest.to_set().insert(key).contains(e));
                        assert(lower.to_set().contains(e));
                        let m = choose|m: int| 0 <= m < lower.len() && lower[m] == e;
                        assert(t[m] == e);
                    }
                }
            }
        }
    }
    assert(strictly_sorted(t) && t.to_set() == goal);
}

/// The names of an ascending list without one name stay in ascending order.
pub proof fn lemma_ascending_without(s: Seq<Seq<char>>, key: Seq<char>)
    requires
        strictly_sorted(s),
    ensures
        strictly_sorted(s.remove_value(key)),
        s.remove_value(key).to_set() == s.to_set().remove(key),
        ascending(s.to_set().remove(key)) == s.remove_value(key),
{
    let t = s.remove_value(key);
    s.index_of_first_ensures(key);
    lemma_sorted_no_duplicates(s);
    match s.index_of_first(key) {
        None => {
            assert(t.to_set() =~= s.to_set().remove(key));
        },
        Some(i) => {
            assert forall|a: int, b: int| 0 <= a < b < t.len() implies precedes(
                #[trigger] t[a],
                #[trigger] t[b],
            ) by {
                let a0 = if a < i { a } else { a + 1 };
                let b0 = if b < i { b } else { b + 1 };
                assert(precedes(s[a0], s[b0]));
            }
            assert(t.to_set() =~= s.to_set().remove(key)) by {
                assert forall|e: Seq<char>| t.to_set().contains(e) <==> s.to_set().remove(
                    key,
                ).contains(e) by {
                    if t.contains(e) {
                        let k = choose|k: int| 0 <= k < t.len() && t[k] == e;
                        let k0 = if k < i { k } else { k + 1 };
                        assert(s[k0] == e);
                        assert(s[k0] != s[i]);
                    }
                    if s.contains(e) && e != key {
                        let k = choose|k: int| 0 <= k < s.len() && s[k] == e;
                        if k < i {
                            assert(t[k] == e);
                        } else {
                            assert(t[k - 1] == e);
                        }
                    }
                }
            }
        },
    }
    lemma_ascending_of_sorted(t);
}

/// The character sequences of a list of owned names, in the same order.
pub open spec fn names(v: Seq<String>) -> Seq<Seq<char>> {
    v.map_values(|s: String| s@)
}

/// Whether `a` comes before `b`, walking both once from the front.
pub fn str_precedes(a: &str, b: &str) -> (r: bool)
    ensures
        r == precedes(a@, b@),
{
    broadcast use vstd::string::group_string_axioms;

    let mut ia = a.chars();
    let mut ib = b.chars();
    let ghost mut k: int = 0;
    assert(a@.skip(0) =~= a@);
    assert(b@.skip(0) =~= b@);
    loop
        invariant
            0 <= k <= a@.len(),
            k <= b@.len(),
            ia.remaining() == a@.skip(k),
            ib.remaining() == b@.skip(k),
            precedes(a@, b@) == precedes(a@.skip(k), b@.skip(k)),
        decreases a@.len() - k,
    {
        let xa = ia.next();
        let xb = ib.next();
        match xb {
            None => {
                return false;
            },
            Some(cb) => match xa {
                None => {
                    return true;
                },
                Some(ca) => {
                    if ca != cb {
                        return ca < cb;
                    }
                    proof {
                        assert(a@.skip(k).drop_first() =~= a@.skip(k + 1));
                        assert(b@.skip(k).drop_first() =~= b@.skip(k + 1));
                        k = k + 1;
                    }
                },
            },
        }
    }
}

/// Where `key` stands in `v`: the index of its first occurrence, if it occurs.
pub fn position_of(v: &Vec<String>, key: &str) -> (r: Option<usize>)
    ensures
        match r {
            Some(i) => i < v.len() && names(v@)[i as int] == key@ && forall|j: int|
                0 <= j < i ==> names(v@)[j] != key@,
            None => !names(v@).contains(key@),
        },
{
    let wanted = key.to_owned();
    let mut i: usize = 0;
    while i < v.len()
        invariant
            i <= v.len(),
            wanted@ == key@,
            forall|j: int| 0 <= j < i ==> names(v@)[j] != key@,
        decreases v.len() - i,
    {
        if v[i] == wanted {
            return Some(i);
        }
        i += 1;
    }
    None
}

/// Puts `key` into the ascending list `v` at the place that keeps it ascending.
pub fn insert_sorted(v: &mut Vec<String>, key: String)
    requires
        strictly_sorted(names(old(v)@)),
        !names(old(v)@).contains(key@),
    ensures
        strictly_sorted(names(final(v)@)),
        names(final(v)@).to_set() == names(old(v)@).to_set().insert(key@),
        final(v).len() == old(v).len() + 1,
{
    let mut pos: usize = 0;
    while pos < v.len() && str_precedes(v[pos].as_str(), key.as_str())
        invariant
            pos <= v.len(),
            *v == *old(v),
            forall|j: int| 0 <= j < pos ==> precedes(names(v@)[j], key@),
        decreases v.len() - pos,
    {
        pos += 1;
    }
    let ghost before = names(v@);
    v.insert(pos, key);
    proof {
        let after = names(v@);
        assert(after =~= before.insert(pos as int, key@));
        assert forall|i: int, j: int| 0 <= i < j < after.len() implies precedes(
            #[trigger] after[i],
            #[trigger] after[j],
        ) by {
            if j < pos {
                assert(precedes(before[i], before[j]));
            } else if j == pos {
                assert(precedes(before[i], key@));
            } else if i > pos {
                assert(precedes(before[i - 1], before[j - 1]));
            } else if i < pos {
                assert(precedes(before[i], before[j - 1]));
            } else {
                // i == pos < j: the key against a name that does not come before it
                let x = before[j - 1];
                assert(before.contains(x));
                if j - 1 > pos {
                    assert(precedes(before[pos as int], x));
                }
                lemma_precedes_total(key@, before[pos as int]);
                if j - 1 > pos {
                    lemma_precedes_transitive(key@, before[pos as int], x);
                }
            }
        }
        assert(after.to_set() =~= before.to_set().insert(key@)) by {
            assert forall|e: Seq<char>| after.to_set().contains(e) <==> before.to_set().insert(
                key@,
            ).contains(e) by {
                if after.contains(e) {
                    let k = choose|k: int| 0 <= k < after.len() && after[k] == e;
                    if k < pos {
                        assert(before[k] == e);
                    } else if k > pos {
                        assert(before[k - 1] == e);
                    }
                }
                if before.contains(e) {
                    let k = choose|k: int| 0 <= k < before.len() && before[k] == e;
                    if k < pos {
                        assert(after[k] == e);
                    } else {
                        assert(after[k + 1] == e);
                    }
                }
                if e == key@ {
                    assert(after[pos as int] == e);
                }
            }
        }
    }
}

/// Takes `key` out of the duplicate-free list `v`, keeping the others in order.
pub fn remove_name(v: &mut Vec<String>, key: &str)
    requires
        names(old(v)@).no_duplicates(),
    ensures
        names(final(v)@).no_duplicates(),
        names(final(v)@).to_set() == names(old(v)@).to_set().remove(key@),
        names(final(v)@) == names(old(v)@).remove_value(key@),
        strictly_sorted(names(old(v)@)) ==> strictly_sorted(names(final(v)@)),
{
    let ghost before = names(v@);
    match position_of(v, key) {
        None => {
            proof {
                assert(before.to_set().remove(key@) =~= before.to_set());
                assert(before.index_of_first(key@) is None) by {
                    before.index_of_first_ensures(key@);
                }
            }
        },
        Some(i) => {
            v.remove(i);
            proof {
                let after = names(v@);
                assert(after =~= before.remove(i as int));
                before.index_of_first_ensures(key@);
                assert(before.index_of_first(key@) == Some(i as int));
                assert forall|a: int, b: int| 0 <= a < b < after.len() implies after[a]
                    != after[b] by {
                    let a0 = if a < i { a } else { a + 1 };
                    let b0 = if b < i { b } else { b + 1 };
                    assert(before[a0] != before[b0]);
                }
                assert(after.to_set() =~= before.to_set().remove(key@)) by {
                    assert forall|e: Seq<char>| after.to_set().contains(e)
                        <==> before.to_set().remove(key@).contains(e) by {
                        if after.contains(e) {
                            let k = choose|k: int| 0 <= k < after.len() && after[k] == e;
                            let k0 = if k < i { k } else { k + 1 };
                            assert(before[k0] == e);
                            assert(before[k0] != before[i as int]);
                        }
                        if before.contains(e) && e != key@ {
                            let k = choose|k: int| 0 <= k < before.len() && before[k] == e;
                            if k < i {
                                assert(after[k] == e);
                            } else {
                                assert(after[k - 1] == e);
                            }
                        }
                    }
                }
                if strictly_sorted(before) {
                    assert forall|a: int, b: int| 0 <= a < b < after.len() implies precedes(
                        #[trigger] after[a],
                        #[trigger] after[b],
                    ) by {
                        let a0 = if a < i { a } else { a + 1 };
                        let b0 = if b < i { b } else { b + 1 };
                        assert(precedes(before[a0], before[b0]));
                    }
                }
            }
        },
    }
}

/// A strictly ascending list holds no name twice.
pub proof fn lemma_sorted_no_duplicates(s: Seq<Seq<char>>)
    requires
        strictly_sorted(s),
    ensures
        s.no_duplicates(),
{
    assert forall|i: int, j: int| 0 <= i < s.len() && 0 <= j < s.len() && i != j implies s[i]
        != s[j] by {
        if i < j {
            assert(precedes(s[i], s[j]));
            lemma_precedes_asymmetric(s[i], s[j]);
        } else {
            assert(precedes(s[j], s[i]));
            lemma_precedes_asymmetric(s[j], s[i]);
        }
    }
}

} // verus!
