//! Byte strings and sorted keys.

use vstd::prelude::*;
use vstd::seq_lib::lemma_sorted_unique;

verus! {

/// The keys in ascending order.
pub open spec fn sorted(keys: Seq<u64>) -> Seq<u64> {
    keys.sort_by(|a: u64, b: u64| a <= b)
}

/// What sorting does: the same keys, in ascending order.
pub proof fn lemma_sorted(keys: Seq<u64>)
    ensures
        sorted(keys).len() == keys.len(),
        sorted(keys).to_multiset() == keys.to_multiset(),
        forall|i: int, j: int| 0 <= i <= j < keys.len() ==> sorted(keys)[i] <= sorted(keys)[j],
        forall|x: u64| sorted(keys).contains(x) <==> keys.contains(x),
{
    let leq = |a: u64, b: u64| a <= b;
    keys.lemma_sort_by_ensures(leq);
    keys.to_multiset_ensures();
    sorted(keys).to_multiset_ensures();
    assert forall|i: int, j: int| 0 <= i <= j < keys.len() implies sorted(keys)[i] <= sorted(keys)[j] by {
        if i < j {
            assert(leq(sorted(keys)[i], sorted(keys)[j]));
        }
    }
    assert forall|x: u64| sorted(keys).contains(x) <==> keys.contains(x) by {
        assert(sorted(keys).to_multiset().count(x) == keys.to_multiset().count(x));
    }
}

pub proof fn lemma_insert_multiset<A>(s: Seq<A>, at: int, x: A)
    requires
        0 <= at <= s.len(),
    ensures
        s.insert(at, x).to_multiset() == s.to_multiset().insert(x),
{
    let t = s.insert(at, x);
    s.to_multiset_ensures();
    t.to_multiset_ensures();
    assert(t.remove(at) =~= s);
    assert(t[at] == x);
    assert(t.contains(x));
    assert(t.to_multiset() =~= s.to_multiset().insert(x));
}

/// Sorts keys in ascending order.
pub fn sort_keys(keys: &[u64]) -> (result: Vec<u64>)
    ensures
        result@ == sorted(keys@),
        result@.len() == keys@.len(),
{
    let mut result: Vec<u64> = Vec::new();
    let mut i: usize = 0;
    assert(keys@.subrange(0, 0) =~= result@);
    while i < keys.len()
        invariant
            i <= keys@.len(),
            result@.len() == i,
            result@.to_multiset() == keys@.subrange(0, i as int).to_multiset(),
            forall|a: int, b: int| 0 <= a <= b < result@.len() ==> result@[a] <= result@[b],
        decreases keys@.len() - i,
    {
        let key: u64 = keys[i];
        let mut at: usize = i;
        while at > 0 && result[at - 1] > key
            invariant
                at <= i,
                result@.len() == i,
                forall|a: int, b: int| 0 <= a <= b < result@.len() ==> result@[a] <= result@[b],
                forall|a: int| at <= a < i ==> result@[a] > key,
            decreases at,
        {
            at = at - 1;
        }
        proof {
            lemma_insert_multiset(result@, at as int, key);
            keys@.subrange(0, i as int).to_multiset_ensures();
            assert(keys@.subrange(0, i + 1) =~= keys@.subrange(0, i as int).push(key));
        }
        result.insert(at, key);
        i = i + 1;
    }
    proof {
        let leq = |a: u64, b: u64| a <= b;
        assert(keys@.subrange(0, keys@.len() as int) =~= keys@);
        keys@.lemma_sort_by_ensures(leq);
        lemma_sorted_unique(result@, sorted(keys@), leq);
    }
    result
}

/// Appends bytes.
pub fn append(output: &mut Vec<u8>, bytes: &[u8])
    ensures
        final(output)@ == old(output)@ + bytes@,
{
    output.extend_from_slice(bytes);
    assert(output@ =~= old(output)@ + bytes@);
}

/// The bytes from `from` up to `to`.
pub fn part(bytes: &[u8], from: usize, to: usize) -> (result: &[u8])
    requires
        from <= to <= bytes@.len(),
    ensures
        result@ == bytes@.subrange(from as int, to as int),
{
    vstd::slice::slice_subrange(bytes, from, to)
}

/// Copies bytes.
pub fn to_vec(bytes: &[u8]) -> (result: Vec<u8>)
    ensures
        result@ == bytes@,
{
    vstd::slice::slice_to_vec(bytes)
}

/// `n` times the same byte.
pub open spec fn repeated(byte: u8, n: nat) -> Seq<u8> {
    Seq::new(n, |i: int| byte)
}

/// Appends a byte `n` times.
pub fn append_repeated(output: &mut Vec<u8>, byte: u8, n: usize)
    requires
        old(output)@.len() + n <= usize::MAX,
    ensures
        final(output)@ == old(output)@ + repeated(byte, n as nat),
{
    let ghost start = output@;
    let size: usize = output.len() + n;
    output.resize(size, byte);
    proof {
        if n > 0 {
            assert forall|i: int| 0 <= i < start.len() implies output@[i] == start[i] by {
                assert(output@.subrange(0, start.len() as int)[i] == start[i]);
            }
        }
        assert(output@ =~= start + repeated(byte, n as nat));
    }
}

/// `part` stands at `at` of `whole`.
pub open spec fn stands<T>(whole: Seq<T>, at: nat, part: Seq<T>) -> bool {
    at + part.len() <= whole.len() && whole.subrange(at as int, (at + part.len()) as int) == part
}

/// Two parts that stand one after the other.
pub proof fn lemma_stands_split<T>(whole: Seq<T>, at: nat, first: Seq<T>, second: Seq<T>)
    requires
        stands(whole, at, first + second),
    ensures
        stands(whole, at, first),
        stands(whole, at + first.len(), second),
{
    let both = first + second;
    let w = whole.subrange(at as int, (at + both.len()) as int);
    assert(whole.subrange(at as int, (at + first.len()) as int) =~= first) by {
        assert forall|i: int| 0 <= i < first.len() implies whole[at + i] == first[i] by {
            assert(w[i] == both[i]);
        }
    }
    assert(whole.subrange((at + first.len()) as int, (at + both.len()) as int) =~= second) by {
        assert forall|i: int| 0 <= i < second.len() implies whole[at + first.len() + i]
            == second[i] by {
            assert(w[first.len() + i] == both[first.len() + i]);
        }
    }
}

/// A part of a part.
pub proof fn lemma_stands_within<T>(whole: Seq<T>, at: nat, part: Seq<T>, inner_at: nat, inner: Seq<T>)
    requires
        stands(whole, at, part),
        stands(part, inner_at, inner),
    ensures
        stands(whole, at + inner_at, inner),
{
    assert(whole.subrange((at + inner_at) as int, (at + inner_at + inner.len()) as int) =~= inner)
        by {
        let w = whole.subrange(at as int, (at + part.len()) as int);
        let v = part.subrange(inner_at as int, (inner_at + inner.len()) as int);
        assert forall|i: int| 0 <= i < inner.len() implies whole[at + inner_at + i] == inner[i] by {
            assert(w[inner_at + i] == part[inner_at + i]);
            assert(v[i] == inner[i]);
        }
    }
}

/// An element of a part.
pub proof fn lemma_stands_index<T>(whole: Seq<T>, at: nat, part: Seq<T>, i: int)
    requires
        stands(whole, at, part),
        0 <= i < part.len(),
    ensures
        whole[at + i] == part[i],
{
    assert(whole.subrange(at as int, (at + part.len()) as int)[i] == part[i]);
}

} // verus!
