use vstd::prelude::*;

use crate::code::{
    code, decode, decode_to_kmer, encode, lemma_code_bound, lemma_code_decode,
    lemma_code_injective, lemma_code_order_is_lex, lemma_decode_code, pow4,
};
use crate::kmer::{
    all_bases, canonical, canonicalize, is_base, lemma_canonical_fixed_point,
    lemma_reverse_complement_bases, lemma_reverse_complement_involutive, lex_less,
};
use crate::table::{line, push_decimal, text, NEWLINE, TAB};

verus! {

/// The three k-mer lengths that contexts are counted for.
#[derive(Clone, Copy, Debug, PartialEq, Eq)]
pub enum ContextKind {
    Dinucleotide,
    Trinucleotide,
    Pentanucleotide,
}

impl ContextKind {
    pub open spec fn spec_width(self) -> nat {
        match self {
            ContextKind::Dinucleotide => 2,
            ContextKind::Trinucleotide => 3,
            ContextKind::Pentanucleotide => 5,
        }
    }

    /// The k-mer length `k` of this kind.
    pub fn width(self) -> (r: usize)
        ensures
            r == self.spec_width(),
    {
        match self {
            ContextKind::Dinucleotide => 2,
            ContextKind::Trinucleotide => 3,
            ContextKind::Pentanucleotide => 5,
        }
    }
}

/// Slot `n` of a table of k-mers of length `k` belongs to a category: the
/// k-mer with code `n` is its own canonical form.
pub open spec fn is_category(n: nat, k: nat) -> bool {
    canonical(decode(n, k)) == Some(decode(n, k))
}

/// Counts indexed by k-mer code: one slot per k-mer of length `k`, where the
/// slots of non-categories stay zero.
pub open spec fn is_table(counts: Seq<int>, k: nat) -> bool {
    &&& counts.len() == pow4(k)
    &&& forall|n: int|
        0 <= n < counts.len() ==> #[trigger] counts[n] >= 0 && (!is_category(n as nat, k)
            ==> counts[n] == 0)
}

pub open spec fn sum(s: Seq<int>) -> int
    decreases s.len(),
{
    if s.len() == 0 {
        0
    } else {
        sum(s.drop_last()) + s.last()
    }
}

/// The counts after one window `w`: its category's slot goes up by one, and an
/// invalid window changes nothing.
pub open spec fn bump(counts: Seq<int>, w: Seq<u8>) -> Seq<int> {
    match canonical(w) {
        Some(c) => if code(c) < counts.len() {
            counts.update(code(c) as int, counts[code(c) as int] + 1)
        } else {
            counts
        },
        None => counts,
    }
}

/// How many windows of length `k` a sequence of length `len` has.
pub open spec fn window_count(len: nat, k: nat) -> nat {
    if len >= k {
        (len - k + 1) as nat
    } else {
        0
    }
}

/// The window of length `k` starting at `i`.
pub open spec fn window(s: Seq<u8>, k: nat, i: int) -> Seq<u8> {
    s.subrange(i, i + k)
}

/// The counts after the first `n` windows of `s`, in order.
pub open spec fn feed(counts: Seq<int>, s: Seq<u8>, k: nat, n: nat) -> Seq<int>
    decreases n,
{
    if n == 0 {
        counts
    } else {
        bump(feed(counts, s, k, (n - 1) as nat), window(s, k, n - 1))
    }
}

/// The counts after every window of `s`.
pub open spec fn tally(counts: Seq<int>, s: Seq<u8>, k: nat) -> Seq<int> {
    feed(counts, s, k, window_count(s.len(), k))
}

/// How many of the first `n` windows of `s` hold nucleotides only.
pub open spec fn valid_upto(s: Seq<u8>, k: nat, n: nat) -> nat
    decreases n,
{
    if n == 0 {
        0
    } else {
        valid_upto(s, k, (n - 1) as nat) + if all_bases(window(s, k, n - 1)) {
            1nat
        } else {
            0nat
        }
    }
}

/// How many windows of `s` hold nucleotides only.
pub open spec fn valid_windows(s: Seq<u8>, k: nat) -> nat {
    valid_upto(s, k, window_count(s.len(), k))
}

/// The (category, count) rows of the first `n` slots, in code order.
pub open spec fn rows_upto(counts: Seq<int>, k: nat, n: nat) -> Seq<(Seq<u8>, int)>
    decreases n,
{
    if n == 0 {
        Seq::empty()
    } else {
        let prev = rows_upto(counts, k, (n - 1) as nat);
        if is_category((n - 1) as nat, k) {
            prev.push((decode((n - 1) as nat, k), counts[n - 1]))
        } else {
            prev
        }
    }
}

/// The (category, count) rows of a table, one per category, in code order
/// (which is lexicographic order, as `A < C < G < T`).
pub open spec fn rows(counts: Seq<int>, k: nat) -> Seq<(Seq<u8>, int)> {
    rows_upto(counts, k, pow4(k))
}

pub open spec fn row_sum(rows: Seq<(Seq<u8>, int)>) -> int
    decreases rows.len(),
{
    if rows.len() == 0 {
        0
    } else {
        row_sum(rows.drop_last()) + rows.last().1
    }
}

/// Slot-by-slot sum of two tables of one size.
pub open spec fn add_counts(a: Seq<int>, b: Seq<int>) -> Seq<int> {
    Seq::new(a.len(), |i: int| a[i] + b[i])
}

proof fn lemma_sum_update(s: Seq<int>, i: int, v: int)
    requires
        0 <= i < s.len(),
    ensures
        sum(s.update(i, v)) == sum(s) - s[i] + v,
    decreases s.len(),
{
    let u = s.update(i, v);
    if i == s.len() - 1 {
        assert(u.drop_last() =~= s.drop_last());
    } else {
        assert(u.drop_last() =~= s.drop_last().update(i, v));
        lemma_sum_update(s.drop_last(), i, v);
    }
}

proof fn lemma_elem_le_sum(s: Seq<int>, i: int)
    requires
        0 <= i < s.len(),
        forall|j: int| 0 <= j < s.len() ==> #[trigger] s[j] >= 0,
    ensures
        s[i] <= sum(s),
    decreases s.len(),
{
    lemma_sum_nonneg(s.drop_last());
    if i < s.len() - 1 {
        lemma_elem_le_sum(s.drop_last(), i);
    }
}

proof fn lemma_sum_nonneg(s: Seq<int>)
    requires
        forall|j: int| 0 <= j < s.len() ==> #[trigger] s[j] >= 0,
    ensures
        sum(s) >= 0,
    decreases s.len(),
{
    if s.len() > 0 {
        lemma_sum_nonneg(s.drop_last());
    }
}

proof fn lemma_sum_prefix_le(s: Seq<int>, i: int)
    requires
        0 <= i <= s.len(),
        forall|j: int| 0 <= j < s.len() ==> #[trigger] s[j] >= 0,
    ensures
        sum(s.take(i)) <= sum(s),
    decreases s.len(),
{
    if i < s.len() {
        assert(s.take(i) =~= s.drop_last().take(i));
        lemma_sum_prefix_le(s.drop_last(), i);
    } else {
        assert(s.take(i) =~= s);
    }
}

proof fn lemma_sum_zeros(n: nat)
    ensures
        sum(Seq::new(n, |i: int| 0int)) == 0,
    decreases n,
{
    if n > 0 {
        assert(Seq::new(n, |i: int| 0int).drop_last() =~= Seq::new((n - 1) as nat, |i: int| 0int));
        lemma_sum_zeros((n - 1) as nat);
    }
}

/// The category of a valid k-mer has a slot of its own in the table.
proof fn lemma_category_slot(w: Seq<u8>)
    requires
        all_bases(w),
    ensures
        canonical(w) is Some,
        canonical(w)->Some_0.len() == w.len(),
        all_bases(canonical(w)->Some_0),
        code(canonical(w)->Some_0) < pow4(w.len()),
        is_category(code(canonical(w)->Some_0), w.len()),
{
    lemma_canonical_fixed_point(w);
    lemma_reverse_complement_involutive(w);
    lemma_reverse_complement_bases(w);
    let c = canonical(w)->Some_0;
    lemma_code_bound(c);
    lemma_decode_code(c);
}

/// One window keeps the table well formed and adds one to the total when it
/// is valid.
proof fn lemma_bump(counts: Seq<int>, k: nat, w: Seq<u8>)
    requires
        is_table(counts, k),
        w.len() == k,
    ensures
        is_table(bump(counts, w), k),
        sum(bump(counts, w)) == sum(counts) + if all_bases(w) {
            1int
        } else {
            0int
        },
{
    if all_bases(w) {
        lemma_category_slot(w);
        let i = code(canonical(w)->Some_0) as int;
        lemma_sum_update(counts, i, counts[i] + 1);
        let b = bump(counts, w);
        assert forall|n: int| 0 <= n < b.len() implies #[trigger] b[n] >= 0 && (!is_category(
            n as nat,
            k,
        ) ==> b[n] == 0) by {
            assert(counts[n] >= 0);
        }
    }
}

proof fn lemma_feed(counts: Seq<int>, s: Seq<u8>, k: nat, n: nat)
    requires
        is_table(counts, k),
        n <= window_count(s.len(), k),
    ensures
        is_table(feed(counts, s, k, n), k),
        sum(feed(counts, s, k, n)) == sum(counts) + valid_upto(s, k, n),
        valid_upto(s, k, n) <= n,
    decreases n,
{
    if n > 0 {
        lemma_feed(counts, s, k, (n - 1) as nat);
        lemma_bump(feed(counts, s, k, (n - 1) as nat), k, window(s, k, n - 1));
    }
}

proof fn lemma_rows_sum(counts: Seq<int>, k: nat, n: nat)
    requires
        is_table(counts, k),
        n <= counts.len(),
    ensures
        row_sum(rows_upto(counts, k, n)) == sum(counts.take(n as int)),
    decreases n,
{
    if n > 0 {
        lemma_rows_sum(counts, k, (n - 1) as nat);
        assert(counts.take(n as int).drop_last() =~= counts.take(n - 1));
        let r = rows_upto(counts, k, n);
        if is_category((n - 1) as nat, k) {
            assert(r.drop_last() =~= rows_upto(counts, k, (n - 1) as nat));
        } else {
            assert(counts[n - 1] == 0);
        }
    }
}

proof fn lemma_rows_upto_sorted(counts: Seq<int>, k: nat, n: nat)
    requires
        n <= pow4(k),
    ensures
        forall|i: int|
            0 <= i < rows_upto(counts, k, n).len() ==> {
                let cat = (#[trigger] rows_upto(counts, k, n)[i]).0;
                &&& cat.len() == k
                &&& all_bases(cat)
                &&& code(cat) < n
                &&& canonical(cat) == Some(cat)
            },
        forall|i: int, j: int|
            0 <= i < j < rows_upto(counts, k, n).len() ==> lex_less(
                (#[trigger] rows_upto(counts, k, n)[i]).0,
                (#[trigger] rows_upto(counts, k, n)[j]).0,
            ),
    decreases n,
{
    if n > 0 {
        let m = (n - 1) as nat;
        lemma_rows_upto_sorted(counts, k, m);
        let prev = rows_upto(counts, k, m);
        let r = rows_upto(counts, k, n);
        if is_category(m, k) {
            lemma_code_decode(m, k);
            assert forall|i: int| 0 <= i < r.len() implies {
                let cat = (#[trigger] r[i]).0;
                &&& cat.len() == k
                &&& all_bases(cat)
                &&& code(cat) < n
                &&& canonical(cat) == Some(cat)
            } by {
                if i < prev.len() {
                    assert(r[i] == prev[i]);
                }
            }
            assert forall|i: int, j: int| 0 <= i < j < r.len() implies lex_less(
                (#[trigger] r[i]).0,
                (#[trigger] r[j]).0,
            ) by {
                assert(r[i] == prev[i]);
                if j < prev.len() {
                    assert(r[j] == prev[j]);
                } else {
                    lemma_code_order_is_lex(prev[i].0, decode(m, k));
                }
            }
        }
    }
}

/// The rendered rows list canonical categories of length `k`, each once, in
/// strictly increasing lexicographic order.
pub proof fn lemma_rows_sorted(counts: Seq<int>, k: nat)
    ensures
        forall|i: int|
            0 <= i < rows(counts, k).len() ==> {
                let cat = (#[trigger] rows(counts, k)[i]).0;
                &&& cat.len() == k
                &&& canonical(cat) == Some(cat)
            },
        forall|i: int, j: int|
            0 <= i < j < rows(counts, k).len() ==> lex_less(
                (#[trigger] rows(counts, k)[i]).0,
                (#[trigger] rows(counts, k)[j]).0,
            ),
{
    lemma_rows_upto_sorted(counts, k, pow4(k));
}

proof fn lemma_bump_shift(c: Seq<int>, d: Seq<int>, w: Seq<u8>)
    requires
        c.len() == d.len(),
    ensures
        bump(add_counts(c, d), w) == add_counts(c, bump(d, w)),
{
    assert(bump(add_counts(c, d), w) =~= add_counts(c, bump(d, w)));
}

proof fn lemma_feed_shift(c: Seq<int>, d: Seq<int>, s: Seq<u8>, k: nat, n: nat)
    requires
        c.len() == d.len(),
    ensures
        feed(add_counts(c, d), s, k, n) == add_counts(c, feed(d, s, k, n)),
        feed(d, s, k, n).len() == d.len(),
    decreases n,
{
    if n > 0 {
        let m = (n - 1) as nat;
        lemma_feed_shift(c, d, s, k, m);
        lemma_bump_shift(c, feed(d, s, k, m), window(s, k, m as int));
    }
}

/// Counting two records in separate tables and merging them gives the same
/// counts as counting both records in one table.
pub proof fn lemma_merge_of_shards(k: nat, s: Seq<u8>, t: Seq<u8>)
    ensures
        ({
            let zero = Seq::new(pow4(k), |i: int| 0int);
            add_counts(tally(zero, s, k), tally(zero, t, k)) == tally(tally(zero, s, k), t, k)
        }),
{
    let zero = Seq::new(pow4(k), |i: int| 0int);
    let a = tally(zero, s, k);
    lemma_feed_shift(zero, zero, s, k, window_count(s.len(), k));
    assert(add_counts(zero, zero) =~= zero);
    assert(add_counts(zero, a) =~= a);
    assert(add_counts(a, zero) =~= a);
    lemma_feed_shift(a, zero, t, k, window_count(t.len(), k));
}

/// Two windows can be counted in either order.
proof fn lemma_bump_commutes(counts: Seq<int>, v: Seq<u8>, w: Seq<u8>)
    ensures
        bump(bump(counts, v), w) == bump(bump(counts, w), v),
{
    assert(bump(bump(counts, v), w) =~= bump(bump(counts, w), v));
}

proof fn lemma_feed_bump_commutes(counts: Seq<int>, s: Seq<u8>, k: nat, n: nat, w: Seq<u8>)
    ensures
        feed(bump(counts, w), s, k, n) == bump(feed(counts, s, k, n), w),
    decreases n,
{
    if n > 0 {
        lemma_feed_bump_commutes(counts, s, k, (n - 1) as nat, w);
        lemma_bump_commutes(feed(counts, s, k, (n - 1) as nat), w, window(s, k, n - 1));
    }
}

proof fn lemma_feed_commutes(counts: Seq<int>, s: Seq<u8>, t: Seq<u8>, k: nat, m: nat, n: nat)
    ensures
        feed(feed(counts, s, k, m), t, k, n) == feed(feed(counts, t, k, n), s, k, m),
    decreases n,
{
    if n > 0 {
        let n1 = (n - 1) as nat;
        lemma_feed_commutes(counts, s, t, k, m, n1);
        lemma_feed_bump_commutes(feed(counts, t, k, n1), s, k, m, window(t, k, n1 as int));
    }
}

/// A sequence of nucleotides only has `L - k + 1` valid windows of length `k`
/// when its length `L` is at least `k`, and none otherwise.
pub proof fn lemma_window_count(s: Seq<u8>, k: nat)
    requires
        all_bases(s),
    ensures
        valid_windows(s, k) == window_count(s.len(), k),
        s.len() >= k ==> valid_windows(s, k) == s.len() - k + 1,
        s.len() < k ==> valid_windows(s, k) == 0,
{
    lemma_valid_upto_all(s, k, window_count(s.len(), k));
}

proof fn lemma_valid_upto_all(s: Seq<u8>, k: nat, n: nat)
    requires
        all_bases(s),
        n <= window_count(s.len(), k),
    ensures
        valid_upto(s, k, n) == n,
    decreases n,
{
    if n > 0 {
        lemma_valid_upto_all(s, k, (n - 1) as nat);
        let w = window(s, k, n - 1);
        assert forall|i: int| 0 <= i < w.len() implies is_base(#[trigger] w[i]) by {
            assert(is_base(s[n - 1 + i]));
        }
    }
}

/// Counting a sequence adds exactly its valid windows to the table: the sum of
/// the rendered counts goes up by the number of windows that hold nucleotides
/// only, and the table stays well formed.
pub proof fn lemma_conservation(counts: Seq<int>, k: nat, s: Seq<u8>)
    requires
        is_table(counts, k),
    ensures
        is_table(tally(counts, s, k), k),
        row_sum(rows(tally(counts, s, k), k)) == row_sum(rows(counts, k)) + valid_windows(s, k),
{
    lemma_feed(counts, s, k, window_count(s.len(), k));
    let after = tally(counts, s, k);
    lemma_rows_sum(counts, k, pow4(k));
    lemma_rows_sum(after, k, pow4(k));
    assert(counts.take(pow4(k) as int) =~= counts);
    assert(after.take(pow4(k) as int) =~= after);
}

/// The counts do not depend on the order in which sequence records are fed.
pub proof fn lemma_record_order(counts: Seq<int>, k: nat, s: Seq<u8>, t: Seq<u8>)
    ensures
        tally(tally(counts, s, k), t, k) == tally(tally(counts, t, k), s, k),
{
    lemma_feed_commutes(counts, s, t, k, window_count(s.len(), k), window_count(t.len(), k));
}

/// The windows of length `k` of `seq`, by increasing start, with stride one;
/// none when `seq` is shorter than `k`.
pub fn scan_windows(seq: &[u8], k: usize) -> (r: Vec<Vec<u8>>)
    requires
        k >= 1,
    ensures
        r@.len() == window_count(seq@.len(), k as nat),
        forall|i: int| 0 <= i < r@.len() ==> (#[trigger] r@[i])@ == window(seq@, k as nat, i),
{
    let mut out: Vec<Vec<u8>> = Vec::new();
    if seq.len() < k {
        return out;
    }
    let n = seq.len() - k + 1;
    let mut i: usize = 0;
    while i < n
        invariant
            n == window_count(seq@.len(), k as nat),
            n + k == seq@.len() + 1,
            seq@.len() == seq.len(),
            i <= n,
            out@.len() == i,
            forall|j: int| 0 <= j < i ==> (#[trigger] out@[j])@ == window(seq@, k as nat, j),
        decreases n - i,
    {
        let w = vstd::slice::slice_subrange(seq, i, i + k);
        out.push(vstd::slice::slice_to_vec(w));
        i += 1;
    }
    out
}

/// A table of context counts for one k-mer length, with one slot per category.
pub struct ContextCounter {
    kind: ContextKind,
    counts: Vec<u64>,
    total: u64,
}

impl View for ContextCounter {
    type V = Seq<int>;

    /// The counts indexed by k-mer code.
    closed spec fn view(&self) -> Seq<int> {
        self.counts@.map_values(|c: u64| c as int)
    }
}

impl ContextCounter {
    pub closed spec fn spec_kind(&self) -> ContextKind {
        self.kind
    }

    pub open spec fn spec_width(&self) -> nat {
        self.spec_kind().spec_width()
    }

    pub closed spec fn wf(&self) -> bool {
        &&& is_table(self@, self.spec_width())
        &&& self.total == sum(self@)
    }

    /// A well-formed counter holds a table in the sense of `is_table`, whose
    /// sum fits in a `u64`.
    pub proof fn lemma_wf_is_table(&self)
        requires
            self.wf(),
        ensures
            is_table(self@, self.spec_width()),
            0 <= sum(self@) <= u64::MAX,
    {
    }

    /// An all-zero table for `kind`.
    pub fn new(kind: ContextKind) -> (r: Self)
        ensures
            r.wf(),
            r.spec_kind() == kind,
            r@ == Seq::new(pow4(kind.spec_width()), |i: int| 0int),
            sum(r@) == 0,
    {
        let size: usize = match kind {
            ContextKind::Dinucleotide => 16,
            ContextKind::Trinucleotide => 64,
            ContextKind::Pentanucleotide => 1024,
        };
        proof {
            reveal_with_fuel(pow4, 6);
        }
        assert(size == pow4(kind.spec_width()));
        let mut counts: Vec<u64> = Vec::with_capacity(size);
        let mut i: usize = 0;
        while i < size
            invariant
                i <= size,
                counts@ == Seq::new(i as nat, |j: int| 0u64),
            decreases size - i,
        {
            counts.push(0);
            i += 1;
            assert(counts@ =~= Seq::new(i as nat, |j: int| 0u64));
        }
        let r = ContextCounter { kind, counts, total: 0 };
        assert(r@ =~= Seq::new(pow4(kind.spec_width()), |i: int| 0int));
        proof {
            lemma_sum_zeros(pow4(kind.spec_width()));
        }
        r
    }

    pub fn kind(&self) -> (r: ContextKind)
        ensures
            r == self.spec_kind(),
    {
        self.kind
    }

    /// The sum of all counts.
    pub fn total(&self) -> (r: u64)
        requires
            self.wf(),
        ensures
            r == sum(self@),
    {
        self.total
    }

    /// Counts one k-mer under its category; a k-mer holding any byte other
    /// than `A`, `C`, `G`, `T` is dropped.
    pub fn increment(&mut self, kmer: &[u8])
        requires
            old(self).wf(),
            kmer@.len() == old(self).spec_width(),
            sum(old(self)@) < u64::MAX,
        ensures
            final(self).wf(),
            final(self).spec_kind() == old(self).spec_kind(),
            final(self)@ == bump(old(self)@, kmer@),
            sum(final(self)@) == sum(old(self)@) + if all_bases(kmer@) {
                1int
            } else {
                0int
            },
    {
        proof {
            lemma_bump(self@, self.spec_width(), kmer@);
        }
        match canonicalize(kmer) {
            None => {},
            Some(cat) => {
                proof {
                    lemma_category_slot(kmer@);
                }
                let idx = encode(cat.as_slice());
                proof {
                    lemma_elem_le_sum(self@, idx as int);
                }
                let c = self.counts[idx];
                self.counts.set(idx, c + 1);
                self.total = self.total + 1;
                assert(self@ =~= bump(old(self)@, kmer@));
            },
        }
    }

    /// Counts every window of `seq`, in order; a sequence shorter than the
    /// k-mer length has no windows.
    pub fn count_sequence(&mut self, seq: &[u8])
        requires
            old(self).wf(),
            sum(old(self)@) + seq@.len() <= u64::MAX,
        ensures
            final(self).wf(),
            final(self).spec_kind() == old(self).spec_kind(),
            final(self)@ == tally(old(self)@, seq@, old(self).spec_width()),
            sum(final(self)@) == sum(old(self)@) + valid_windows(seq@, old(self).spec_width()),
    {
        let k = self.kind.width();
        let ghost start = self@;
        if seq.len() < k {
            return;
        }
        let n = seq.len() - k + 1;
        let mut i: usize = 0;
        while i < n
            invariant
                k == self.spec_width(),
                n == window_count(seq@.len(), k as nat),
                n + k == seq@.len() + 1,
                seq@.len() == seq.len(),
                i <= n,
                self.wf(),
                self.spec_kind() == old(self).spec_kind(),
                start == old(self)@,
                is_table(start, k as nat),
                self@ == feed(start, seq@, k as nat, i as nat),
                sum(self@) == sum(start) + valid_upto(seq@, k as nat, i as nat),
                valid_upto(seq@, k as nat, i as nat) <= i,
                sum(start) + seq@.len() <= u64::MAX,
            decreases n - i,
        {
            let w = vstd::slice::slice_subrange(seq, i, i + k);
            self.increment(w);
            i += 1;
        }
    }

    /// Adds the counts of `other`, slot by slot: the merge step after parts of
    /// the input were counted in separate tables.
    pub fn merge(&mut self, other: &ContextCounter)
        requires
            old(self).wf(),
            other.wf(),
            other.spec_kind() == old(self).spec_kind(),
            sum(old(self)@) + sum(other@) <= u64::MAX,
        ensures
            final(self).wf(),
            final(self).spec_kind() == old(self).spec_kind(),
            final(self)@ == add_counts(old(self)@, other@),
            sum(final(self)@) == sum(old(self)@) + sum(other@),
    {
        let ghost start = self@;
        let ghost k = self.spec_width();
        let size = self.counts.len();
        let mut i: usize = 0;
        while i < size
            invariant
                size == start.len(),
                size == other@.len(),
                i <= size,
                start == old(self)@,
                k == self.spec_width(),
                self.spec_kind() == old(self).spec_kind(),
                is_table(start, k),
                is_table(other@, k),
                self.counts@.len() == size,
                self@ == Seq::new(
                    size as nat,
                    |j: int|
                        if j < i {
                            start[j] + other@[j]
                        } else {
                            start[j]
                        },
                ),
                sum(self@) == sum(start) + sum(other@.take(i as int)),
                self.total == sum(self@),
                sum(start) + sum(other@) <= u64::MAX,
            decreases size - i,
        {
            proof {
                lemma_elem_le_sum(self@, i as int);
                lemma_sum_prefix_le(other@, i as int + 1);
                assert(other@.take(i as int + 1).drop_last() =~= other@.take(i as int));
            }
            let ghost before = self@;
            let c = self.counts[i] + other.counts[i];
            self.counts.set(i, c);
            self.total = self.total + other.counts[i];
            assert(self@ =~= before.update(i as int, c as int));
            proof {
                lemma_sum_update(before, i as int, c as int);
                assert(sum(other@.take(i as int + 1)) == sum(other@.take(i as int)) + other@[i as int]);
            }
            i += 1;
            assert(self@ =~= Seq::new(
                size as nat,
                |j: int|
                    if j < i {
                        start[j] + other@[j]
                    } else {
                        start[j]
                    },
            ));
        }
        assert(other@.take(size as int) =~= other@);
        assert(self@ =~= add_counts(start, other@));
    }

    /// The count of the category of `kmer`; zero for an invalid k-mer.
    pub fn count_of(&self, kmer: &[u8]) -> (r: u64)
        requires
            self.wf(),
            kmer@.len() == self.spec_width(),
        ensures
            canonical(kmer@) is Some ==> r == self@[code(canonical(kmer@)->Some_0) as int],
            canonical(kmer@) is None ==> r == 0,
    {
        match canonicalize(kmer) {
            None => 0,
            Some(cat) => {
                proof {
                    lemma_category_slot(kmer@);
                }
                let idx = encode(cat.as_slice());
                self.counts[idx]
            },
        }
    }

    /// Whether slot `n` belongs to a category.
    fn slot_is_category(&self, n: usize) -> (r: bool)
        requires
            self.wf(),
            n < pow4(self.spec_width()),
        ensures
            r == is_category(n as nat, self.spec_width()),
    {
        let k = self.kind.width();
        let kmer = decode_to_kmer(n, k);
        proof {
            lemma_code_decode(n as nat, k as nat);
            lemma_category_slot(kmer@);
        }
        match canonicalize(kmer.as_slice()) {
            None => false,
            Some(cat) => {
                let c = encode(cat.as_slice());
                proof {
                    if c == n {
                        lemma_code_injective(cat@, kmer@);
                    }
                }
                c == n
            },
        }
    }

    /// The (category, count) rows, one per category, in lexicographic order of
    /// the category.
    pub fn render(&self) -> (r: Vec<(Vec<u8>, u64)>)
        requires
            self.wf(),
        ensures
            r@.len() == rows(self@, self.spec_width()).len(),
            forall|i: int|
                0 <= i < r@.len() ==> (#[trigger] r@[i]).0@ == rows(self@, self.spec_width())[i].0
                    && r@[i].1 as int == rows(self@, self.spec_width())[i].1,
    {
        let k = self.kind.width();
        let size = self.counts.len();
        let mut out: Vec<(Vec<u8>, u64)> = Vec::new();
        let mut n: usize = 0;
        while n < size
            invariant
                self.wf(),
                k == self.spec_width(),
                size == pow4(k as nat),
                n <= size,
                out@.len() == rows_upto(self@, k as nat, n as nat).len(),
                forall|i: int|
                    0 <= i < out@.len() ==> (#[trigger] out@[i]).0@ == rows_upto(
                        self@,
                        k as nat,
                        n as nat,
                    )[i].0 && out@[i].1 as int == rows_upto(self@, k as nat, n as nat)[i].1,
            decreases size - n,
        {
            if self.slot_is_category(n) {
                out.push((decode_to_kmer(n, k), self.counts[n]));
            }
            n += 1;
        }
        out
    }

    /// The table as text: one line `<category>\t<count>\n` per category, in
    /// lexicographic order of the category. Rendering reads the counts only, so
    /// equal counts always give byte-identical text.
    pub fn render_table(&self) -> (r: Vec<u8>)
        requires
            self.wf(),
        ensures
            r@ == text(rows(self@, self.spec_width())),
    {
        let k = self.kind.width();
        let size = self.counts.len();
        let mut out: Vec<u8> = Vec::new();
        let mut n: usize = 0;
        while n < size
            invariant
                self.wf(),
                k == self.spec_width(),
                size == pow4(k as nat),
                n <= size,
                out@ == text(rows_upto(self@, k as nat, n as nat)),
            decreases size - n,
        {
            let ghost before = out@;
            if self.slot_is_category(n) {
                let mut cat = decode_to_kmer(n, k);
                out.append(&mut cat);
                out.push(TAB);
                push_decimal(&mut out, self.counts[n]);
                out.push(NEWLINE);
                let ghost row = (decode(n as nat, k as nat), self@[n as int]);
                assert(out@ =~= before + line(row));
                assert(rows_upto(self@, k as nat, (n + 1) as nat).drop_last() =~= rows_upto(
                    self@,
                    k as nat,
                    n as nat,
                ));
            }
            n += 1;
        }
        out
    }
}

} // verus!
