use vstd::prelude::*;

verus! {

/// `a` and `b` agree before position `k`, and `a` is smaller at `k`: it ends
/// there while `b` goes on, or its byte there is smaller.
pub open spec fn lex_at(a: Seq<u8>, b: Seq<u8>, k: int) -> bool {
    &&& 0 <= k <= a.len()
    &&& k <= b.len()
    &&& forall|j: int| 0 <= j < k ==> a[j] == b[j]
    &&& (k == a.len() && k < b.len()) || (k < a.len() && k < b.len() && a[k] < b[k])
}

/// Byte strings in lexicographic order: `a` comes strictly before `b`.
pub open spec fn lex_lt(a: Seq<u8>, b: Seq<u8>) -> bool {
    exists|k: int| lex_at(a, b, k)
}

proof fn lemma_lex_asym(a: Seq<u8>, b: Seq<u8>)
    ensures
        !(lex_lt(a, b) && lex_lt(b, a)),
{
    if lex_lt(a, b) && lex_lt(b, a) {
        let k = choose|k: int| lex_at(a, b, k);
        let m = choose|m: int| lex_at(b, a, m);
        if k < m {
            assert(b[k] == a[k]);
        } else if m < k {
            assert(a[m] == b[m]);
        }
    }
}

proof fn lemma_lex_total_from(a: Seq<u8>, b: Seq<u8>, k: int)
    requires
        0 <= k <= a.len(),
        k <= b.len(),
        forall|j: int| 0 <= j < k ==> a[j] == b[j],
    ensures
        lex_lt(a, b) || lex_lt(b, a) || a == b,
    decreases a.len() - k,
{
    if k == a.len() && k == b.len() {
        assert(a =~= b);
    } else if k == a.len() {
        assert(lex_at(a, b, k));
    } else if k == b.len() {
        assert(lex_at(b, a, k));
    } else if a[k] < b[k] {
        assert(lex_at(a, b, k));
    } else if b[k] < a[k] {
        assert(lex_at(b, a, k));
    } else {
        lemma_lex_total_from(a, b, k + 1);
    }
}

proof fn lemma_lex_trans(a: Seq<u8>, b: Seq<u8>, c: Seq<u8>)
    requires
        lex_lt(a, b),
        lex_lt(b, c),
    ensures
        lex_lt(a, c),
{
    let k = choose|k: int| lex_at(a, b, k);
    let m = choose|m: int| lex_at(b, c, m);
    if k < m {
        assert(b[k] == c[k]);
        assert(lex_at(a, c, k));
    } else if m < k {
        assert(a[m] == b[m]);
        assert(lex_at(a, c, m));
    } else {
        assert(lex_at(a, c, k));
    }
}

/// Lexicographic order is a strict total order on byte strings.
pub broadcast proof fn lemma_lex_order(a: Seq<u8>, b: Seq<u8>)
    ensures
        #![trigger lex_lt(a, b)]
        !lex_lt(a, a),
        lex_lt(a, b) ==> !lex_lt(b, a),
        lex_lt(a, b) || lex_lt(b, a) || a == b,
{
    lemma_lex_asym(a, b);
    lemma_lex_asym(a, a);
    lemma_lex_total_from(a, b, 0);
}

/// Lexicographic order is transitive.
pub broadcast proof fn lemma_lex_transitive(a: Seq<u8>, b: Seq<u8>, c: Seq<u8>)
    ensures
        #![trigger lex_lt(a, b), lex_lt(b, c)]
        lex_lt(a, b) && lex_lt(b, c) ==> lex_lt(a, c),
{
    if lex_lt(a, b) && lex_lt(b, c) {
        lemma_lex_trans(a, b, c);
    }
}

pub broadcast group group_lex {
    lemma_lex_order,
    lemma_lex_transitive,
}

/// Whether the bytes of span `a` come strictly before those of span `b`.
pub fn span_less(bytes: &Vec<u8>, a: (usize, usize), b: (usize, usize)) -> (r: bool)
    requires
        a.0 <= a.1 <= bytes@.len(),
        b.0 <= b.1 <= bytes@.len(),
    ensures
        r == lex_lt(
            bytes@.subrange(a.0 as int, a.1 as int),
            bytes@.subrange(b.0 as int, b.1 as int),
        ),
{
    let ghost x = bytes@.subrange(a.0 as int, a.1 as int);
    let ghost y = bytes@.subrange(b.0 as int, b.1 as int);
    let la = a.1 - a.0;
    let lb = b.1 - b.0;
    let mut k: usize = 0;
    while k < la && k < lb && bytes[a.0 + k] == bytes[b.0 + k]
        invariant
            la == x.len(),
            lb == y.len(),
            a.0 <= a.1 <= bytes@.len(),
            b.0 <= b.1 <= bytes@.len(),
            x == bytes@.subrange(a.0 as int, a.1 as int),
            y == bytes@.subrange(b.0 as int, b.1 as int),
            k <= la,
            k <= lb,
            forall|j: int| 0 <= j < k ==> x[j] == y[j],
        decreases la - k,
    {
        assert(x[k as int] == y[k as int]);
        k = k + 1;
    }
    proof {
        lemma_lex_asym(x, y);
    }
    if k < la && k < lb {
        assert(x[k as int] == bytes@[a.0 + k] && y[k as int] == bytes@[b.0 + k]);
        if bytes[a.0 + k] < bytes[b.0 + k] {
            assert(lex_at(x, y, k as int));
            true
        } else {
            assert(lex_at(y, x, k as int));
            false
        }
    } else if k == la && k < lb {
        assert(lex_at(x, y, k as int));
        true
    } else {
        proof {
            if lex_lt(x, y) {
                let m = choose|m: int| lex_at(x, y, m);
                if m < k {
                    assert(x[m] == y[m]);
                }
            }
        }
        false
    }
}

} // verus!
