//! Lexicographic order on strings, by code point.

use vstd::prelude::*;

verus! {

/// `a` and `b` agree on their first `k` characters.
pub open spec fn agree_before(a: Seq<char>, b: Seq<char>, k: int) -> bool {
    &&& 0 <= k <= a.len()
    &&& k <= b.len()
    &&& forall|i: int| 0 <= i < k ==> a[i] == b[i]
}

/// `a` comes strictly before `b`: at the first place where they differ `a`
/// has ended, or holds the smaller code point.
pub open spec fn lex_lt(a: Seq<char>, b: Seq<char>) -> bool {
    exists|k: int|
        #[trigger] agree_before(a, b, k) && k < b.len() && (k == a.len() || a[k] < b[k])
}

/// `a` comes before `b` or equals it.
pub open spec fn lex_le(a: Seq<char>, b: Seq<char>) -> bool {
    !lex_lt(b, a)
}

/// No string comes before itself.
pub proof fn lemma_lex_lt_irreflexive(a: Seq<char>)
    ensures
        !lex_lt(a, a),
{
}

/// Two strings are never each before the other.
pub proof fn lemma_lex_lt_asymmetric(a: Seq<char>, b: Seq<char>)
    ensures
        !(lex_lt(a, b) && lex_lt(b, a)),
{
    if lex_lt(a, b) && lex_lt(b, a) {
        let k = choose|k: int|
            #[trigger] agree_before(a, b, k) && k < b.len() && (k == a.len() || a[k] < b[k]);
        let j = choose|j: int|
            #[trigger] agree_before(b, a, j) && j < a.len() && (j == b.len() || b[j] < a[j]);
        if k < j {
            assert(b[k] == a[k]);
        } else if j < k {
            assert(a[j] == b[j]);
        }
    }
}

/// The order is transitive.
pub proof fn lemma_lex_lt_transitive(a: Seq<char>, b: Seq<char>, c: Seq<char>)
    requires
        lex_lt(a, b),
        lex_lt(b, c),
    ensures
        lex_lt(a, c),
{
    let k = choose|k: int|
        #[trigger] agree_before(a, b, k) && k < b.len() && (k == a.len() || a[k] < b[k]);
    let j = choose|j: int|
        #[trigger] agree_before(b, c, j) && j < c.len() && (j == b.len() || b[j] < c[j]);
    let m = if k <= j { k } else { j };
    assert forall|i: int| 0 <= i < m implies a[i] == c[i] by {
        assert(a[i] == b[i]);
        assert(b[i] == c[i]);
    }
    if k < j {
        assert(b[k] == c[k]);
    } else if j < k {
        assert(a[j] == b[j]);
    }
    assert(agree_before(a, c, m));
}

/// Two different strings are ordered one way or the other.
pub proof fn lemma_lex_lt_total(a: Seq<char>, b: Seq<char>)
    ensures
        a == b || lex_lt(a, b) || lex_lt(b, a),
{
    let k = first_difference(a, b, 0);
    lemma_first_difference(a, b, 0);
    if k == a.len() && k == b.len() {
        assert(a =~= b);
    } else if k == a.len() {
        assert(agree_before(a, b, k));
    } else if k == b.len() {
        assert(agree_before(b, a, k));
    } else if a[k] < b[k] {
        assert(agree_before(a, b, k));
    } else {
        assert(a[k] != b[k]);
        assert(agree_before(b, a, k));
    }
}

/// The first place at or after `from` where `a` and `b` differ or one ends.
spec fn first_difference(a: Seq<char>, b: Seq<char>, from: int) -> int
    decreases a.len() - from,
{
    if 0 <= from < a.len() && from < b.len() && a[from] == b[from] {
        first_difference(a, b, from + 1)
    } else {
        from
    }
}

proof fn lemma_first_difference(a: Seq<char>, b: Seq<char>, from: int)
    requires
        agree_before(a, b, from),
    ensures
        agree_before(a, b, first_difference(a, b, from)),
        from <= first_difference(a, b, from),
        ({
            let k = first_difference(a, b, from);
            k == a.len() || k == b.len() || a[k] != b[k]
        }),
    decreases a.len() - from,
{
    if from < a.len() && from < b.len() && a[from] == b[from] {
        assert(agree_before(a, b, from + 1));
        lemma_first_difference(a, b, from + 1);
    }
}

/// Whether `a` comes strictly before `b`.
pub fn str_lt(a: &str, b: &str) -> (r: bool)
    ensures
        r == lex_lt(a@, b@),
{
    let x = chars_of(a);
    let y = chars_of(b);
    let mut i: usize = 0;
    while i < x.len() && i < y.len()
        invariant
            x@ == a@,
            y@ == b@,
            agree_before(a@, b@, i as int),
        decreases x@.len() - i,
    {
        if x[i] != y[i] {
            let r = x[i] < y[i];
            proof {
                if r {
                    assert(agree_before(a@, b@, i as int));
                } else {
                    lemma_not_lt_at(a@, b@, i as int);
                }
            }
            return r;
        }
        i = i + 1;
    }
    proof {
        if i < y@.len() {
            assert(agree_before(a@, b@, i as int));
        } else {
            lemma_not_lt_at(a@, b@, i as int);
        }
    }
    i < y.len()
}

proof fn lemma_not_lt_at(a: Seq<char>, b: Seq<char>, k: int)
    requires
        agree_before(a, b, k),
        k == b.len() || (k < a.len() && a[k] >= b[k] && a[k] != b[k]),
    ensures
        !lex_lt(a, b),
{
    if lex_lt(a, b) {
        let j = choose|j: int|
            #[trigger] agree_before(a, b, j) && j < b.len() && (j == a.len() || a[j] < b[j]);
        if j < k {
            assert(a[j] == b[j]);
        } else if j > k {
            assert(a[k] == b[k]);
        }
    }
}

/// Whether `a` and `b` hold the same characters.
pub fn str_eq(a: &str, b: &str) -> (r: bool)
    ensures
        r == (a@ == b@),
{
    let x = chars_of(a);
    let y = chars_of(b);
    if x.len() != y.len() {
        return false;
    }
    let mut i: usize = 0;
    while i < x.len()
        invariant
            x@ == a@,
            y@ == b@,
            x@.len() == y@.len(),
            i <= x@.len(),
            forall|j: int| 0 <= j < i ==> a@[j] == b@[j],
        decreases x@.len() - i,
    {
        if x[i] != y[i] {
            return false;
        }
        i = i + 1;
    }
    assert(a@ =~= b@);
    true
}

/// The characters of `s`.
pub fn chars_of(s: &str) -> (r: Vec<char>)
    ensures
        r@ == s@,
{
    let mut v: Vec<char> = Vec::new();
    for c in it: s.chars()
        invariant
            it.seq() == s@,
            v@ == it.seq().take(it.index() as int),
    {
        v.push(c);
    }
    assert(v@ =~= s@);
    v
}

} // verus!
