use vstd::prelude::*;

verus! {

/// The number of positions of `s` that hold `r`.
pub open spec fn count(s: Seq<int>, r: int) -> nat
    decreases s.len(),
{
    if s.len() == 0 {
        0
    } else {
        count(s.drop_last(), r) + if s.last() == r { 1nat } else { 0nat }
    }
}

/// The number of positions of `s` that hold a value below `b`.
pub open spec fn count_below(s: Seq<int>, b: int) -> nat
    decreases s.len(),
{
    if s.len() == 0 {
        0
    } else {
        count_below(s.drop_last(), b) + if s.last() < b { 1nat } else { 0nat }
    }
}

/// The sequence `0, 1, ..., n - 1`.
pub open spec fn identity(n: nat) -> Seq<int> {
    Seq::new(n, |j: int| j)
}

/// `s` with every `r1` and every `r2` replaced by `w`.
pub open spec fn relabel(s: Seq<int>, r1: int, r2: int, w: int) -> Seq<int> {
    Seq::new(s.len(), |j: int| if s[j] == r1 || s[j] == r2 { w } else { s[j] })
}

/// The sum of `count(s, r)` over the values `r < m` that `s` maps to themselves.
pub open spec fn sum_root_counts(s: Seq<int>, m: nat) -> nat
    decreases m,
{
    if m == 0 {
        0
    } else {
        sum_root_counts(s, (m - 1) as nat) + if s[m - 1] == m - 1 {
            count(s, m - 1)
        } else {
            0nat
        }
    }
}

pub proof fn lemma_count_le_len(s: Seq<int>, r: int)
    ensures
        count(s, r) <= s.len(),
    decreases s.len(),
{
    if s.len() > 0 {
        lemma_count_le_len(s.drop_last(), r);
    }
}

pub proof fn lemma_count_absent(s: Seq<int>, r: int)
    requires
        forall|j: int| 0 <= j < s.len() ==> s[j] != r,
    ensures
        count(s, r) == 0,
    decreases s.len(),
{
    if s.len() > 0 {
        lemma_count_absent(s.drop_last(), r);
    }
}

pub proof fn lemma_count_below_step(s: Seq<int>, m: int)
    ensures
        count_below(s, m + 1) == count_below(s, m) + count(s, m),
    decreases s.len(),
{
    if s.len() > 0 {
        lemma_count_below_step(s.drop_last(), m);
    }
}

pub proof fn lemma_count_below_all(s: Seq<int>, b: int)
    requires
        forall|j: int| 0 <= j < s.len() ==> s[j] < b,
    ensures
        count_below(s, b) == s.len(),
    decreases s.len(),
{
    if s.len() > 0 {
        lemma_count_below_all(s.drop_last(), b);
    }
}

pub proof fn lemma_count_identity(n: nat, r: int)
    ensures
        count(identity(n), r) == if 0 <= r < n { 1nat } else { 0nat },
    decreases n,
{
    if n > 0 {
        assert(identity(n).drop_last() =~= identity((n - 1) as nat));
        lemma_count_identity((n - 1) as nat, r);
    }
}

pub proof fn lemma_count_relabel(s: Seq<int>, r1: int, r2: int, w: int, r: int)
    requires
        r1 != r2,
    ensures
        r == w ==> count(relabel(s, r1, r2, w), r) == count(s, r1) + count(s, r2)
            + if r != r1 && r != r2 { count(s, r) } else { 0nat },
        r != w && r != r1 && r != r2 ==> count(relabel(s, r1, r2, w), r) == count(s, r),
        r != w && (r == r1 || r == r2) ==> count(relabel(s, r1, r2, w), r) == 0,
    decreases s.len(),
{
    if s.len() > 0 {
        assert(relabel(s, r1, r2, w).drop_last() =~= relabel(s.drop_last(), r1, r2, w));
        lemma_count_relabel(s.drop_last(), r1, r2, w, r);
    }
}

/// Where `s` maps every position to a value in range that it maps to itself,
/// the counts of those values add up to the length of `s`.
pub proof fn lemma_sum_root_counts(s: Seq<int>)
    requires
        forall|j: int| 0 <= j < s.len() ==> 0 <= #[trigger] s[j] < s.len() && s[s[j]] == s[j],
    ensures
        sum_root_counts(s, s.len()) == s.len(),
{
    lemma_sum_root_counts_prefix(s, s.len());
    lemma_count_below_all(s, s.len() as int);
}

proof fn lemma_sum_root_counts_prefix(s: Seq<int>, m: nat)
    requires
        m <= s.len(),
        forall|j: int| 0 <= j < s.len() ==> 0 <= #[trigger] s[j] < s.len() && s[s[j]] == s[j],
    ensures
        sum_root_counts(s, m) == count_below(s, m as int),
    decreases m,
{
    if m == 0 {
        lemma_count_below_all_absent(s);
    } else {
        let p = m - 1;
        lemma_sum_root_counts_prefix(s, p as nat);
        lemma_count_below_step(s, p);
        if s[p] != p {
            assert forall|j: int| 0 <= j < s.len() implies s[j] != p by {
                if s[j] == p {
                    assert(s[s[j]] == s[j]);
                }
            }
            lemma_count_absent(s, p);
        }
    }
}

proof fn lemma_count_below_all_absent(s: Seq<int>)
    requires
        forall|j: int| 0 <= j < s.len() ==> 0 <= #[trigger] s[j],
    ensures
        count_below(s, 0) == 0,
    decreases s.len(),
{
    if s.len() > 0 {
        lemma_count_below_all_absent(s.drop_last());
    }
}

} // verus!
