use vstd::prelude::*;

use crate::kmer::{all_bases, first_smaller_at, is_base, lex_less, BASE_A, BASE_C, BASE_G, BASE_T};

verus! {

/// Largest k-mer length that has an index here.
pub const MAX_WIDTH: usize = 5;

pub open spec fn pow4(k: nat) -> nat
    decreases k,
{
    if k == 0 {
        1
    } else {
        4 * pow4((k - 1) as nat)
    }
}

/// Digit of a nucleotide in alphabetical order: A 0, C 1, G 2, T 3.
pub open spec fn digit(b: u8) -> nat {
    if b == BASE_A {
        0
    } else if b == BASE_C {
        1
    } else if b == BASE_G {
        2
    } else {
        3
    }
}

/// Nucleotide of a digit, the inverse of `digit`.
pub open spec fn base_of(d: nat) -> u8 {
    if d == 0 {
        BASE_A
    } else if d == 1 {
        BASE_C
    } else if d == 2 {
        BASE_G
    } else {
        BASE_T
    }
}

/// A k-mer read as a base-4 number, first base most significant.
pub open spec fn code(s: Seq<u8>) -> nat
    decreases s.len(),
{
    if s.len() == 0 {
        0
    } else {
        code(s.drop_last()) * 4 + digit(s.last())
    }
}

/// The k-mer of length `k` whose code is `n` (taken modulo `4^k`).
pub open spec fn decode(n: nat, k: nat) -> Seq<u8>
    decreases k,
{
    if k == 0 {
        Seq::empty()
    } else {
        decode(n / 4, (k - 1) as nat).push(base_of(n % 4))
    }
}

pub proof fn lemma_pow4_monotone(a: nat, b: nat)
    requires
        a <= b,
    ensures
        pow4(a) <= pow4(b),
    decreases b,
{
    if a < b {
        lemma_pow4_monotone(a, (b - 1) as nat);
    }
}

pub proof fn lemma_code_bound(s: Seq<u8>)
    ensures
        code(s) < pow4(s.len()),
    decreases s.len(),
{
    if s.len() > 0 {
        lemma_code_bound(s.drop_last());
        assert(code(s.drop_last()) * 4 + digit(s.last()) < 4 * pow4((s.len() - 1) as nat))
            by (nonlinear_arith)
            requires
                code(s.drop_last()) < pow4((s.len() - 1) as nat),
                digit(s.last()) < 4,
        ;
    }
}

/// Decoding the code of a k-mer gives the k-mer back.
pub proof fn lemma_decode_code(s: Seq<u8>)
    requires
        all_bases(s),
    ensures
        decode(code(s), s.len()) == s,
    decreases s.len(),
{
    if s.len() > 0 {
        let p = s.drop_last();
        assert(all_bases(p)) by {
            assert forall|i: int| 0 <= i < p.len() implies is_base(#[trigger] p[i]) by {
                assert(is_base(s[i]));
            }
        }
        lemma_decode_code(p);
        assert(is_base(s[s.len() - 1]));
        let n = code(s);
        assert(n / 4 == code(p) && n % 4 == digit(s.last())) by (nonlinear_arith)
            requires
                n == code(p) * 4 + digit(s.last()),
                digit(s.last()) < 4,
        ;
        assert(decode(n, s.len()) =~= s);
    }
}

/// Encoding the k-mer of a code gives the code back.
pub proof fn lemma_code_decode(n: nat, k: nat)
    requires
        n < pow4(k),
    ensures
        decode(n, k).len() == k,
        all_bases(decode(n, k)),
        code(decode(n, k)) == n,
    decreases k,
{
    if k > 0 {
        let k1 = (k - 1) as nat;
        assert(n / 4 < pow4(k1)) by (nonlinear_arith)
            requires
                n < 4 * pow4(k1),
        ;
        lemma_code_decode(n / 4, k1);
        let d = decode(n, k);
        assert(d.drop_last() =~= decode(n / 4, k1));
        assert(n == (n / 4) * 4 + n % 4) by (nonlinear_arith);
        assert forall|i: int| 0 <= i < d.len() implies is_base(#[trigger] d[i]) by {
            if i < k1 {
                assert(d[i] == decode(n / 4, k1)[i]);
            }
        }
    }
}

/// Two valid k-mers of one length with the same code are equal.
pub proof fn lemma_code_injective(a: Seq<u8>, b: Seq<u8>)
    requires
        all_bases(a),
        all_bases(b),
        a.len() == b.len(),
        code(a) == code(b),
    ensures
        a == b,
{
    lemma_decode_code(a);
    lemma_decode_code(b);
}

proof fn lemma_prefix_bases(s: Seq<u8>)
    requires
        all_bases(s),
        s.len() > 0,
    ensures
        all_bases(s.drop_last()),
        is_base(s.last()),
{
    let p = s.drop_last();
    assert forall|i: int| 0 <= i < p.len() implies is_base(#[trigger] p[i]) by {
        assert(is_base(s[i]));
    }
    assert(is_base(s[s.len() - 1]));
}

/// Code order is lexicographic order: of two k-mers of one length, the one
/// with the smaller code comes first.
pub proof fn lemma_code_order_is_lex(a: Seq<u8>, b: Seq<u8>)
    requires
        all_bases(a),
        all_bases(b),
        a.len() == b.len(),
        code(a) < code(b),
    ensures
        lex_less(a, b),
    decreases a.len(),
{
    let n = a.len() as int;
    let (pa, pb) = (a.drop_last(), b.drop_last());
    lemma_prefix_bases(a);
    lemma_prefix_bases(b);
    let (ca, cb) = (code(pa), code(pb));
    if ca < cb {
        lemma_code_order_is_lex(pa, pb);
        let i = choose|i: int| first_smaller_at(pa, pb, i);
        assert(a[i] == pa[i] && b[i] == pb[i]);
        assert forall|j: int| 0 <= j < i implies a[j] == b[j] by {
            assert(pa[j] == pb[j]);
        }
        assert(first_smaller_at(a, b, i));
    } else if ca == cb {
        lemma_code_injective(pa, pb);
        assert(first_smaller_at(a, b, n - 1)) by {
            assert forall|j: int| 0 <= j < n - 1 implies a[j] == b[j] by {
                assert(pa[j] == pb[j]);
            }
        }
    } else {
        assert(code(a) >= code(b)) by (nonlinear_arith)
            requires
                ca > cb,
                code(a) == ca * 4 + digit(a.last()),
                code(b) == cb * 4 + digit(b.last()),
                digit(b.last()) < 4,
        ;
    }
}

/// The base-4 code of a k-mer of at most five nucleotides.
pub fn encode(kmer: &[u8]) -> (r: usize)
    requires
        all_bases(kmer@),
        kmer@.len() <= MAX_WIDTH,
    ensures
        r == code(kmer@),
        r < pow4(kmer@.len()),
{
    let mut acc: usize = 0;
    let mut i: usize = 0;
    while i < kmer.len()
        invariant
            i <= kmer@.len() <= MAX_WIDTH,
            all_bases(kmer@),
            acc == code(kmer@.take(i as int)),
        decreases kmer@.len() - i,
    {
        proof {
            lemma_code_bound(kmer@.take(i as int));
            lemma_pow4_monotone(i as nat, 4);
            reveal_with_fuel(pow4, 5);
            assert(pow4(4) == 256);
        }
        let b = kmer[i];
        let d: usize = if b == BASE_A {
            0
        } else if b == BASE_C {
            1
        } else if b == BASE_G {
            2
        } else {
            3
        };
        acc = acc * 4 + d;
        i += 1;
        assert(kmer@.take(i as int).drop_last() =~= kmer@.take((i - 1) as int));
    }
    assert(kmer@.take(i as int) =~= kmer@);
    proof {
        lemma_code_bound(kmer@);
    }
    acc
}

/// The k-mer of length `k` whose code is `n`.
pub fn decode_to_kmer(n: usize, k: usize) -> (r: Vec<u8>)
    ensures
        r@ == decode(n as nat, k as nat),
    decreases k,
{
    if k == 0 {
        Vec::new()
    } else {
        let mut v = decode_to_kmer(n / 4, k - 1);
        let d = n % 4;
        let b = if d == 0 {
            BASE_A
        } else if d == 1 {
            BASE_C
        } else if d == 2 {
            BASE_G
        } else {
            BASE_T
        };
        v.push(b);
        v
    }
}

} // verus!
