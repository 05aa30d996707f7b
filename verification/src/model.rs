//! The mathematical model of the virtual address space: the total length of a
//! sequence of byte sources, the length of a prefix of them, the concatenated
//! contents, and the cursor that covers a given logical position.

use vstd::prelude::*;

verus! {

/// Total number of bytes held by the sources of `s`, in order.
pub open spec fn seq_sum(s: Seq<Seq<u8>>) -> int
    decreases s.len(),
{
    if s.len() == 0 {
        0
    } else {
        s.first().len() + seq_sum(s.drop_first())
    }
}

/// Number of bytes held by the first `i` sources of `s`: the logical position
/// at which source `i` begins.
pub open spec fn prefix_len(s: Seq<Seq<u8>>, i: int) -> int
    decreases i,
{
    if i <= 0 {
        0
    } else {
        prefix_len(s, i - 1) + s[i - 1].len()
    }
}

/// The concatenation of all sources of `s`, in order: the contents of the
/// virtual stream.
pub open spec fn flat(s: Seq<Seq<u8>>) -> Seq<u8>
    decreases s.len(),
{
    if s.len() == 0 {
        Seq::empty()
    } else {
        s.first() + flat(s.drop_first())
    }
}

/// The cursor `(source index, offset within that source)` that covers logical
/// position `t`: the unique pair whose offset is strictly inside its source.
pub open spec fn locate(s: Seq<Seq<u8>>, t: int) -> (int, int)
    decreases s.len(),
{
    if s.len() == 0 {
        (0, 0)
    } else if t < s.first().len() {
        (0, t)
    } else {
        let r = locate(s.drop_first(), t - s.first().len());
        (r.0 + 1, r.1)
    }
}

pub proof fn lemma_prefix_len_nonneg(s: Seq<Seq<u8>>, i: int)
    ensures
        prefix_len(s, i) >= 0,
    decreases i,
{
    if i > 0 {
        lemma_prefix_len_nonneg(s, i - 1);
    }
}

pub proof fn lemma_prefix_len_mono(s: Seq<Seq<u8>>, i: int, j: int)
    requires
        i <= j,
    ensures
        prefix_len(s, i) <= prefix_len(s, j),
    decreases j - i,
{
    if i < j {
        lemma_prefix_len_mono(s, i, j - 1);
    }
}

/// Dropping the first source shifts prefix lengths by that source's length.
pub proof fn lemma_prefix_len_shift(s: Seq<Seq<u8>>, i: int)
    requires
        0 <= i < s.len(),
    ensures
        prefix_len(s, i + 1) == s.first().len() + prefix_len(s.drop_first(), i),
    decreases i,
{
    if i > 0 {
        lemma_prefix_len_shift(s, i - 1);
        assert(s.drop_first()[i - 1] == s[i]);
    } else {
        assert(prefix_len(s, 0) == 0);
        assert(prefix_len(s.drop_first(), 0) == 0);
    }
}

/// The prefix covering every source is the whole virtual length.
pub proof fn lemma_prefix_len_full(s: Seq<Seq<u8>>)
    ensures
        prefix_len(s, s.len() as int) == seq_sum(s),
    decreases s.len(),
{
    if s.len() > 0 {
        lemma_prefix_len_full(s.drop_first());
        lemma_prefix_len_shift(s, s.len() - 1);
    }
}

/// Two sequences that agree on their first `i` sources have the same prefix
/// length at `i`.
pub proof fn lemma_prefix_len_agree(s1: Seq<Seq<u8>>, s2: Seq<Seq<u8>>, i: int)
    requires
        forall|j: int| 0 <= j < i ==> s1[j] == s2[j],
    ensures
        prefix_len(s1, i) == prefix_len(s2, i),
    decreases i,
{
    if i > 0 {
        lemma_prefix_len_agree(s1, s2, i - 1);
    }
}

/// Appending a source adds its length to the total.
pub proof fn lemma_seq_sum_push(s: Seq<Seq<u8>>, x: Seq<u8>)
    ensures
        seq_sum(s.push(x)) == seq_sum(s) + x.len(),
{
    let sp = s.push(x);
    lemma_prefix_len_full(s);
    lemma_prefix_len_full(sp);
    lemma_prefix_len_agree(sp, s, s.len() as int);
    assert(sp[sp.len() - 1] == x);
}

pub proof fn lemma_flat_len(s: Seq<Seq<u8>>)
    ensures
        flat(s).len() == seq_sum(s),
    decreases s.len(),
{
    if s.len() > 0 {
        lemma_flat_len(s.drop_first());
    }
}

/// The byte at offset `o` of source `i` sits at logical position
/// `prefix_len(s, i) + o` of the concatenated stream.
pub proof fn lemma_flat_index(s: Seq<Seq<u8>>, i: int, o: int)
    requires
        0 <= i < s.len(),
        0 <= o < s[i].len(),
    ensures
        0 <= prefix_len(s, i) + o < flat(s).len(),
        flat(s)[prefix_len(s, i) + o] == s[i][o],
    decreases i,
{
    lemma_flat_len(s);
    lemma_prefix_len_nonneg(s, i);
    lemma_prefix_len_mono(s, i + 1, s.len() as int);
    lemma_prefix_len_full(s);
    if i == 0 {
        assert(flat(s)[o] == s.first()[o]);
    } else {
        let d = s.drop_first();
        lemma_prefix_len_shift(s, i - 1);
        assert(d[i - 1] == s[i]);
        lemma_flat_index(d, i - 1, o);
        lemma_prefix_len_nonneg(d, i - 1);
        assert(flat(s)[s.first().len() + (prefix_len(d, i - 1) + o)]
            == flat(d)[prefix_len(d, i - 1) + o]);
    }
}

/// Appending a source appends its bytes to the concatenated stream.
pub proof fn lemma_flat_push(s: Seq<Seq<u8>>, x: Seq<u8>)
    ensures
        flat(s.push(x)) == flat(s) + x,
    decreases s.len(),
{
    let sp = s.push(x);
    if s.len() == 0 {
        assert(sp.drop_first() =~= Seq::<Seq<u8>>::empty());
        assert(sp.first() == x);
        assert(flat(sp) == x + flat(Seq::<Seq<u8>>::empty()));
        assert(x + Seq::<u8>::empty() =~= x);
        assert(flat(s) + x =~= x);
    } else {
        assert(sp.drop_first() =~= s.drop_first().push(x));
        lemma_flat_push(s.drop_first(), x);
        assert(sp.first() == s.first());
        assert(flat(sp) == s.first() + (flat(s.drop_first()) + x));
        assert(s.first() + (flat(s.drop_first()) + x) =~= (s.first() + flat(s.drop_first())) + x);
    }
}

/// A cursor strictly inside its source is the one `locate` yields for its
/// logical position: the normalized representation is unique.
pub proof fn lemma_locate_unique(s: Seq<Seq<u8>>, i: int, o: int)
    requires
        0 <= i < s.len(),
        0 <= o < s[i].len(),
    ensures
        locate(s, prefix_len(s, i) + o) == (i, o),
    decreases i,
{
    lemma_prefix_len_nonneg(s, i);
    if i == 0 {
        assert(locate(s, o) == (0int, o));
    } else {
        let t = prefix_len(s, i) + o;
        lemma_prefix_len_mono(s, 1, i);
        assert(prefix_len(s, 0) == 0);
        assert(prefix_len(s, 1) == s.first().len());
        assert(t >= s.first().len());
        let d = s.drop_first();
        lemma_prefix_len_shift(s, i - 1);
        assert(d[i - 1] == s[i]);
        lemma_locate_unique(d, i - 1, o);
        assert(t - s.first().len() == prefix_len(d, i - 1) + o);
    }
}

} // verus!
