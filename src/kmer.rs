use vstd::prelude::*;

verus! {

/// The nucleotide bytes.
pub const BASE_A: u8 = 65;

pub const BASE_C: u8 = 67;

pub const BASE_G: u8 = 71;

pub const BASE_T: u8 = 84;

/// True for the four nucleotide bytes `A`, `C`, `G`, `T` (upper case only).
pub open spec fn is_base(b: u8) -> bool {
    b == BASE_A || b == BASE_C || b == BASE_G || b == BASE_T
}

pub open spec fn is_purine(b: u8) -> bool {
    b == BASE_A || b == BASE_G
}

pub open spec fn is_pyrimidine(b: u8) -> bool {
    b == BASE_C || b == BASE_T
}

/// Every byte of `s` is a nucleotide.
pub open spec fn all_bases(s: Seq<u8>) -> bool {
    forall|i: int| 0 <= i < s.len() ==> is_base(#[trigger] s[i])
}

/// Watson-Crick pairing; any other byte is left as it is.
pub open spec fn complement(b: u8) -> u8 {
    if b == BASE_A {
        BASE_T
    } else if b == BASE_T {
        BASE_A
    } else if b == BASE_C {
        BASE_G
    } else if b == BASE_G {
        BASE_C
    } else {
        b
    }
}

/// The sequence read backwards with each byte complemented.
pub open spec fn reverse_complement(s: Seq<u8>) -> Seq<u8> {
    Seq::new(s.len(), |i: int| complement(s[s.len() - 1 - i]))
}

/// The middle byte of an odd-length k-mer.
pub open spec fn center(s: Seq<u8>) -> u8 {
    s[s.len() as int / 2]
}

/// `i` is the first position where `a` and `b` differ, and there `a` is smaller.
pub open spec fn first_smaller_at(a: Seq<u8>, b: Seq<u8>, i: int) -> bool {
    &&& 0 <= i < a.len()
    &&& i < b.len()
    &&& a[i] < b[i]
    &&& forall|j: int| 0 <= j < i ==> a[j] == b[j]
}

/// Strict lexicographic order on byte strings of the same length.
pub open spec fn lex_less(a: Seq<u8>, b: Seq<u8>) -> bool {
    exists|i: int| #[trigger] first_smaller_at(a, b, i)
}

/// The category that a k-mer is counted under, or `None` when it holds a byte
/// other than `A`, `C`, `G`, `T`.
///
/// Odd length: the k-mer itself when its center is a pyrimidine, else its
/// reverse complement. Even length: the lexicographically smaller of the k-mer
/// and its reverse complement.
pub open spec fn canonical(s: Seq<u8>) -> Option<Seq<u8>> {
    if !all_bases(s) {
        None
    } else if s.len() % 2 == 1 {
        if is_purine(center(s)) {
            Some(reverse_complement(s))
        } else {
            Some(s)
        }
    } else if lex_less(reverse_complement(s), s) {
        Some(reverse_complement(s))
    } else {
        Some(s)
    }
}

pub proof fn lemma_reverse_complement_involutive(s: Seq<u8>)
    ensures
        reverse_complement(reverse_complement(s)) == s,
        reverse_complement(s).len() == s.len(),
{
    assert(reverse_complement(reverse_complement(s)) =~= s);
}

pub proof fn lemma_reverse_complement_bases(s: Seq<u8>)
    requires
        all_bases(s),
    ensures
        all_bases(reverse_complement(s)),
{
    let r = reverse_complement(s);
    assert forall|i: int| 0 <= i < r.len() implies is_base(#[trigger] r[i]) by {
        assert(is_base(s[s.len() - 1 - i]));
    }
}

proof fn lemma_center_of_reverse_complement(s: Seq<u8>)
    requires
        s.len() % 2 == 1,
    ensures
        center(reverse_complement(s)) == complement(center(s)),
{
    assert(s.len() - 1 - s.len() as int / 2 == s.len() as int / 2);
}

proof fn lemma_lex_less_asymmetric(a: Seq<u8>, b: Seq<u8>)
    requires
        lex_less(a, b),
    ensures
        !lex_less(b, a),
{
    let i = choose|i: int| first_smaller_at(a, b, i);
    if lex_less(b, a) {
        let j = choose|j: int| first_smaller_at(b, a, j);
        if i < j {
            assert(b[i] == a[i]);
        } else if j < i {
            assert(a[j] == b[j]);
        }
    }
}

/// Canonicalising a canonical category gives it back.
pub proof fn lemma_canonical_fixed_point(s: Seq<u8>)
    requires
        all_bases(s),
    ensures
        canonical(s) is Some,
        canonical(canonical(s)->Some_0) == canonical(s),
{
    let r = reverse_complement(s);
    lemma_reverse_complement_involutive(s);
    lemma_reverse_complement_bases(s);
    if s.len() % 2 == 1 {
        lemma_center_of_reverse_complement(s);
    } else if lex_less(r, s) {
        lemma_lex_less_asymmetric(r, s);
    }
}

/// For an odd-length k-mer the category always has a pyrimidine center.
pub proof fn lemma_canonical_pyrimidine_center(s: Seq<u8>)
    requires
        all_bases(s),
        s.len() % 2 == 1,
    ensures
        canonical(s) is Some,
        is_pyrimidine(center(canonical(s)->Some_0)),
{
    lemma_center_of_reverse_complement(s);
    assert(is_base(s[s.len() as int / 2]));
}

/// Tests whether a byte is one of the four nucleotides.
pub fn is_nucleotide(b: u8) -> (r: bool)
    ensures
        r == is_base(b),
{
    b == BASE_A || b == BASE_C || b == BASE_G || b == BASE_T
}

/// The Watson-Crick partner of a byte; other bytes come back unchanged.
pub fn complement_base(b: u8) -> (r: u8)
    ensures
        r == complement(b),
{
    if b == BASE_A {
        BASE_T
    } else if b == BASE_T {
        BASE_A
    } else if b == BASE_C {
        BASE_G
    } else if b == BASE_G {
        BASE_C
    } else {
        b
    }
}

/// Whether every byte of `s` is a nucleotide.
pub fn all_nucleotides(s: &[u8]) -> (r: bool)
    ensures
        r == all_bases(s@),
{
    let mut i: usize = 0;
    while i < s.len()
        invariant
            i <= s@.len(),
            forall|j: int| 0 <= j < i ==> is_base(#[trigger] s@[j]),
        decreases s@.len() - i,
    {
        if !is_nucleotide(s[i]) {
            return false;
        }
        i += 1;
    }
    true
}

/// The reverse complement of `s`.
pub fn reverse_complement_of(s: &[u8]) -> (r: Vec<u8>)
    ensures
        r@ == reverse_complement(s@),
{
    let n = s.len();
    let mut r: Vec<u8> = Vec::with_capacity(n);
    let mut i: usize = 0;
    while i < n
        invariant
            n == s@.len(),
            i <= n,
            r@ =~= reverse_complement(s@).take(i as int),
        decreases n - i,
    {
        r.push(complement_base(s[n - 1 - i]));
        i += 1;
        assert(r@ =~= reverse_complement(s@).take(i as int));
    }
    assert(reverse_complement(s@).take(n as int) =~= reverse_complement(s@));
    r
}

/// Whether `a` comes strictly before `b` in lexicographic order.
pub fn lex_less_than(a: &[u8], b: &[u8]) -> (r: bool)
    requires
        a@.len() == b@.len(),
    ensures
        r == lex_less(a@, b@),
{
    let n = a.len();
    let mut i: usize = 0;
    while i < n && a[i] == b[i]
        invariant
            n == a@.len(),
            n == b@.len(),
            i <= n,
            forall|j: int| 0 <= j < i ==> a@[j] == b@[j],
        decreases n - i,
    {
        i += 1;
    }
    if i < n && a[i] < b[i] {
        assert(first_smaller_at(a@, b@, i as int));
        true
    } else {
        assert forall|j: int| !first_smaller_at(a@, b@, j) by {
            if first_smaller_at(a@, b@, j) {
                if j < i {
                } else if j > i {
                    assert(a@[i as int] == b@[i as int]);
                }
            }
        }
        false
    }
}

/// The category of a k-mer, or `None` when it holds a byte other than
/// `A`, `C`, `G`, `T` (lower case and ambiguity codes included).
pub fn canonicalize(kmer: &[u8]) -> (r: Option<Vec<u8>>)
    ensures
        r is None <==> !all_bases(kmer@),
        r is Some ==> canonical(kmer@) == Some(r->Some_0@),
{
    if !all_nucleotides(kmer) {
        return None;
    }
    let n = kmer.len();
    let rc = reverse_complement_of(kmer);
    if n % 2 == 1 {
        let mid = kmer[n / 2];
        if mid == BASE_A || mid == BASE_G {
            Some(rc)
        } else {
            Some(vstd::slice::slice_to_vec(kmer))
        }
    } else if lex_less_than(rc.as_slice(), kmer) {
        Some(rc)
    } else {
        Some(vstd::slice::slice_to_vec(kmer))
    }
}

} // verus!
