//! The primorial: the product of the first `n` primes, computed in chunks.
use crate::number::BigNat;
use crate::primes::{
    as_nats,
    lemma_primes_upto_characterization,
    optimized_sieve_of_eratosthenes,
    primes_upto,
    sieve_result,
};
use vstd::arithmetic::mul::lemma_mul_is_associative;
use vstd::prelude::*;

verus! {

/// The number of parts the primes are split into for multiplying.
pub const THREAD_COUNT: usize = 9;

// ---------------------------------------------------------------------------
// Mathematical model
// ---------------------------------------------------------------------------

/// The product of a sequence of naturals; 1 for the empty sequence.
pub open spec fn product(s: Seq<nat>) -> nat
    decreases s.len(),
{
    if s.len() == 0 {
        1
    } else {
        product(s.drop_last()) * s.last()
    }
}

/// The sequence cut into consecutive pieces of `size` elements; the last piece
/// may be shorter.
pub open spec fn chunked<A>(s: Seq<A>, size: nat) -> Seq<Seq<A>>
    decreases s.len(),
{
    if s.len() == 0 || size == 0 {
        Seq::empty()
    } else if s.len() <= size {
        seq![s]
    } else {
        seq![s.take(size as int)] + chunked(s.skip(size as int), size)
    }
}

/// The pieces put back together.
pub open spec fn concat<A>(c: Seq<Seq<A>>) -> Seq<A>
    decreases c.len(),
{
    if c.len() == 0 {
        Seq::empty()
    } else {
        c[0] + concat(c.drop_first())
    }
}

/// The product of each piece.
pub open spec fn chunk_products(c: Seq<Seq<usize>>) -> Seq<nat> {
    c.map_values(|x: Seq<usize>| product(as_nats(x)))
}

/// The contents of vectors of vectors.
pub open spec fn vec_views(c: Seq<Vec<usize>>) -> Seq<Seq<usize>> {
    c.map_values(|x: Vec<usize>| x@)
}

/// The values of a sequence of numbers.
pub open spec fn values(c: Seq<BigNat>) -> Seq<nat> {
    c.map_values(|x: BigNat| x@)
}

/// The size of the pieces that `n` primes are cut into, one piece per thread.
pub open spec fn thread_chunk_size(n: nat) -> nat {
    n / (THREAD_COUNT as nat) + 1
}

/// The first `n` primes, as the sieve up to `16 n` lists them.
pub open spec fn first_primes_spec(n: nat) -> Seq<nat> {
    sieve_result(16 * n).take(n as int)
}

/// The primorial of `n`: the product of the first `n` primes.
pub open spec fn primorial_value(n: nat) -> nat {
    product(primes_upto(16 * n).take(n as int))
}

/// The inputs on which the sieve up to `16 n` lists at least `n` primes, so that
/// the primorial can take the first `n` of them.
pub open spec fn primorial_defined(n: nat) -> bool {
    &&& 16 * n <= usize::MAX
    &&& n <= sieve_result(16 * n).len()
}

// ---------------------------------------------------------------------------
// Laws
// ---------------------------------------------------------------------------

/// The product of two sequences put together is the product of their products.
pub proof fn lemma_product_append(a: Seq<nat>, b: Seq<nat>)
    ensures
        product(a + b) == product(a) * product(b),
    decreases b.len(),
{
    if b.len() == 0 {
        assert(a + b =~= a);
        assert(product(b) == 1);
    } else {
        lemma_product_append(a, b.drop_last());
        assert((a + b).drop_last() =~= a + b.drop_last());
        assert((a + b).last() == b.last());
        assert(product(a + b) == product(a + b.drop_last()) * b.last());
        assert(product(b) == product(b.drop_last()) * b.last());
        let (pa, pb, l) = (product(a), product(b.drop_last()), b.last());
        assert((pa * pb) * l == pa * (pb * l)) by (nonlinear_arith);
    }
}

/// Cutting a sequence into pieces loses and adds nothing; every piece holds
/// between 1 and `size` elements, and all but the last exactly `size`.
pub proof fn lemma_chunked_pieces<A>(s: Seq<A>, size: nat)
    requires
        size > 0,
    ensures
        concat(chunked(s, size)) == s,
        forall|k: int| 0 <= k < chunked(s, size).len() ==> 0 < #[trigger] chunked(s, size)[k].len() <= size,
        forall|k: int| 0 <= k < chunked(s, size).len() - 1 ==> #[trigger] chunked(s, size)[k].len() == size,
    decreases s.len(),
{
    if s.len() == 0 {
    } else if s.len() <= size {
        assert(seq![s].drop_first() =~= Seq::<Seq<A>>::empty());
        assert(concat(seq![s]) =~= s + concat(Seq::<Seq<A>>::empty()));
        assert(s + Seq::<A>::empty() =~= s);
    } else {
        let rest = chunked(s.skip(size as int), size);
        lemma_chunked_pieces(s.skip(size as int), size);
        let c = seq![s.take(size as int)] + rest;
        assert(c.drop_first() =~= rest);
        assert(c[0] == s.take(size as int));
        assert(s.take(size as int) + s.skip(size as int) =~= s);
        assert forall|k: int| 0 <= k < c.len() implies 0 < #[trigger] c[k].len() <= size by {
            if k > 0 {
                assert(c[k] == rest[k - 1]);
            }
        }
        assert forall|k: int| 0 <= k < c.len() - 1 implies #[trigger] c[k].len() == size by {
            if k > 0 {
                assert(c[k] == rest[k - 1]);
            }
        }
    }
}

/// The product of a sequence of pieces put together is the product of the
/// pieces' products.
pub proof fn lemma_product_of_concat(c: Seq<Seq<usize>>)
    ensures
        product(chunk_products(c)) == product(as_nats(concat(c))),
    decreases c.len(),
{
    if c.len() > 0 {
        let rest = c.drop_first();
        let x = product(as_nats(c[0]));
        lemma_product_of_concat(rest);
        assert(concat(c) == c[0] + concat(rest));
        assert(as_nats(concat(c)) =~= as_nats(c[0]) + as_nats(concat(rest)));
        assert(chunk_products(c) =~= seq![x] + chunk_products(rest));
        lemma_product_append(seq![x], chunk_products(rest));
        lemma_product_append(as_nats(c[0]), as_nats(concat(rest)));
        assert(seq![x].drop_last() =~= Seq::<nat>::empty());
        assert(product(Seq::<nat>::empty()) == 1);
        assert(seq![x].last() == x);
        assert(product(seq![x]) == product(seq![x].drop_last()) * x);
        assert(product(seq![x]) == x);
    } else {
        assert(chunk_products(c) =~= Seq::<nat>::empty());
        assert(as_nats(concat(c)) =~= Seq::<nat>::empty());
    }
}

/// Multiplying the products of the pieces gives the product of the whole
/// sequence, whatever the size of the pieces.
pub proof fn lemma_chunked_product(s: Seq<usize>, size: nat)
    requires
        size > 0,
    ensures
        product(chunk_products(chunked(s, size))) == product(as_nats(s)),
{
    lemma_chunked_pieces(s, size);
    lemma_product_of_concat(chunked(s, size));
}

/// The primes up to `a` begin the primes up to any `b >= a`: the first `n`
/// primes do not depend on the bound they were sieved to.
pub proof fn lemma_primes_upto_prefix(a: nat, b: nat)
    requires
        a <= b,
    ensures
        primes_upto(a).len() <= primes_upto(b).len(),
        primes_upto(b).take(primes_upto(a).len() as int) == primes_upto(a),
    decreases b,
{
    if a < b {
        lemma_primes_upto_prefix(a, (b - 1) as nat);
        let prev = primes_upto((b - 1) as nat);
        assert(prev.push(b).take(prev.len() as int) =~= prev);
        assert(prev.push(b).take(primes_upto(a).len() as int) =~= prev.take(primes_upto(a).len() as int));
    } else {
        assert(primes_upto(b).take(primes_upto(b).len() as int) =~= primes_upto(b));
    }
}

/// The primorial of `n` is the product of `n` primes in increasing order, and
/// every prime below the largest of them is among them: it is the product of
/// the first `n` primes.
pub proof fn lemma_primorial_is_first_primes(n: nat)
    requires
        primorial_defined(n),
    ensures
        primes_upto(16 * n).take(n as int).len() == n,
        forall|k: int| 0 <= k < n ==> crate::primes::is_prime(#[trigger] primes_upto(16 * n)[k]),
        forall|k: int, l: int| 0 <= k < l < n ==> #[trigger] primes_upto(16 * n)[k] < #[trigger] primes_upto(16 * n)[l],
        forall|p: nat| n > 0 && crate::primes::is_prime(p) && p <= primes_upto(16 * n)[n - 1] ==> #[trigger] primes_upto(16 * n).take(n as int).contains(p),
{
    let s = primes_upto(16 * n);
    lemma_primes_upto_characterization(16 * n);
    if n > 0 {
        assert(sieve_result(16 * n) == s);
        assert forall|p: nat| crate::primes::is_prime(p) && p <= s[n - 1] implies #[trigger] s.take(n as int).contains(p) by {
            assert(s.contains(p));
            let k = choose|k: int| 0 <= k < s.len() && s[k] == p;
            if k >= n {
                assert(s[n - 1] < s[k]);
            }
            assert(s.take(n as int)[k] == p);
        }
    }
}

// ---------------------------------------------------------------------------
// Executable functions
// ---------------------------------------------------------------------------

/// The product of the numbers in `v`, multiplied in from the left.
pub fn multiply_vec(v: Vec<usize>) -> (r: BigNat)
    ensures
        r@ == product(as_nats(v@)),
{
    let mut acc = BigNat::one();
    let mut i: usize = 0;
    proof {
        assert(as_nats(v@).take(0) =~= Seq::<nat>::empty());
    }
    while i < v.len()
        invariant
            i <= v.len(),
            acc@ == product(as_nats(v@).take(i as int)),
        decreases v.len() - i,
    {
        let x = v[i];
        acc = acc.mul_small(x as u64);
        proof {
            let t = as_nats(v@).take(i + 1);
            assert(t.drop_last() =~= as_nats(v@).take(i as int));
            assert(t.last() == x as nat);
        }
        i = i + 1;
    }
    proof {
        assert(as_nats(v@).take(v.len() as int) =~= as_nats(v@));
    }
    acc
}

/// The product of the values of `parts`, multiplied in from the left.
pub fn multiply_all(parts: Vec<BigNat>) -> (r: BigNat)
    ensures
        r@ == product(values(parts@)),
{
    let mut acc = BigNat::one();
    let mut i: usize = 0;
    proof {
        assert(values(parts@).take(0) =~= Seq::<nat>::empty());
    }
    while i < parts.len()
        invariant
            i <= parts.len(),
            acc@ == product(values(parts@).take(i as int)),
        decreases parts.len() - i,
    {
        acc = acc.mul(&parts[i]);
        proof {
            let t = values(parts@).take(i + 1);
            assert(t.drop_last() =~= values(parts@).take(i as int));
            assert(t.last() == parts@[i as int]@);
        }
        i = i + 1;
    }
    proof {
        assert(values(parts@).take(parts.len() as int) =~= values(parts@));
    }
    acc
}

/// Copies `s[start..end]`.
fn copy_range(s: &Vec<usize>, start: usize, end: usize) -> (r: Vec<usize>)
    requires
        start <= end <= s.len(),
    ensures
        r@ == s@.subrange(start as int, end as int),
{
    let mut r: Vec<usize> = Vec::new();
    let mut k = start;
    while k < end
        invariant
            start <= k <= end <= s.len(),
            r@ == s@.subrange(start as int, k as int),
        decreases end - k,
    {
        r.push(s[k]);
        assert(r@ =~= s@.subrange(start as int, k + 1));
        k = k + 1;
    }
    r
}

/// Cuts `primes` into consecutive pieces of `chunk_size` elements, the last one
/// possibly shorter, as `slice::chunks` does.
pub fn split_into_chunks(primes: &Vec<usize>, chunk_size: usize) -> (chunks: Vec<Vec<usize>>)
    requires
        chunk_size > 0,
    ensures
        vec_views(chunks@) == chunked(primes@, chunk_size as nat),
{
    let mut chunks: Vec<Vec<usize>> = Vec::new();
    let mut start: usize = 0;
    let len = primes.len();
    proof {
        assert(primes@.skip(0) =~= primes@);
        assert(vec_views(chunks@) + chunked(primes@.skip(0), chunk_size as nat) =~= chunked(primes@, chunk_size as nat));
    }
    while start < len
        invariant
            len == primes.len(),
            chunk_size > 0,
            start <= len,
            vec_views(chunks@) + chunked(primes@.skip(start as int), chunk_size as nat) == chunked(primes@, chunk_size as nat),
        decreases len - start,
    {
        let rest = Ghost(primes@.skip(start as int));
        let end = if len - start > chunk_size {
            start + chunk_size
        } else {
            len
        };
        let piece = copy_range(primes, start, end);
        let ghost old_chunks = chunks@;
        chunks.push(piece);
        proof {
            let size = chunk_size as nat;
            if rest@.len() <= size {
                assert(piece@ =~= rest@);
                assert(primes@.skip(end as int) =~= Seq::<usize>::empty());
                assert(chunked(primes@.skip(end as int), size) =~= Seq::<Seq<usize>>::empty());
            } else {
                assert(piece@ =~= rest@.take(size as int));
                assert(rest@.skip(size as int) =~= primes@.skip(end as int));
            }
            assert(vec_views(chunks@) =~= vec_views(old_chunks).push(piece@));
            assert(vec_views(chunks@) + chunked(primes@.skip(end as int), size) =~= vec_views(old_chunks)
                + chunked(rest@, size));
        }
        start = end;
    }
    proof {
        assert(chunked(primes@.skip(start as int), chunk_size as nat) =~= Seq::<Seq<usize>>::empty());
        assert(vec_views(chunks@) + Seq::<Seq<usize>>::empty() =~= vec_views(chunks@));
    }
    chunks
}

/// Cuts `primes` into at most `THREAD_COUNT` pieces of `len / THREAD_COUNT + 1`
/// elements, to be multiplied separately.
pub fn thread_chunks(primes: &Vec<usize>) -> (chunks: Vec<Vec<usize>>)
    ensures
        vec_views(chunks@) == chunked(primes@, thread_chunk_size(primes@.len())),
{
    let chunk_size = primes.len() / THREAD_COUNT + 1;
    split_into_chunks(primes, chunk_size)
}

/// The first `number_of_primes` primes, taken from the sieve up to
/// `16 * number_of_primes`; `None` where that limit overflows or the sieve finds
/// fewer primes.
pub fn first_primes(number_of_primes: usize) -> (primes: Option<Vec<usize>>)
    ensures
        primes is Some <==> primorial_defined(number_of_primes as nat),
        primes matches Some(p) ==> as_nats(p@) == first_primes_spec(number_of_primes as nat),
{
    if number_of_primes > usize::MAX / 16 {
        return None;
    }
    let mut primes = optimized_sieve_of_eratosthenes(number_of_primes * 16);
    proof {
        assert(as_nats(primes@).len() == primes@.len());
    }
    if primes.len() < number_of_primes {
        return None;
    }
    let ghost all = primes@;
    primes.truncate(number_of_primes);
    proof {
        assert(as_nats(primes@) =~= as_nats(all).take(number_of_primes as int));
    }
    Some(primes)
}

/// The primorial of `number_of_primes`: the product of the first
/// `number_of_primes` primes, multiplied piece by piece.
pub fn primorial(number_of_primes: usize) -> (r: BigNat)
    requires
        primorial_defined(number_of_primes as nat),
    ensures
        r@ == primorial_value(number_of_primes as nat),
{
    let primes = match first_primes(number_of_primes) {
        Some(p) => p,
        None => {
            proof {
                assert(false);
            }
            Vec::new()
        },
    };
    let mut chunks = thread_chunks(&primes);
    let ghost pieces = vec_views(chunks@);
    let mut products: Vec<BigNat> = Vec::new();
    let mut i: usize = 0;
    let count = chunks.len();
    while i < count
        invariant
            count == chunks.len(),
            pieces.len() == count,
            i <= count,
            forall|k: int| i <= k < count ==> #[trigger] chunks@[k]@ == pieces[k],
            values(products@) == chunk_products(pieces).take(i as int),
        decreases count - i,
    {
        let mut piece: Vec<usize> = Vec::new();
        let ghost before = chunks@;
        chunks.set_and_swap(i, &mut piece);
        proof {
            assert(before[i as int]@ == pieces[i as int]);
            assert forall|k: int| i + 1 <= k < count implies #[trigger] chunks@[k]@ == pieces[k] by {
                assert(chunks@[k] == before[k]);
            }
        }
        let ghost old_products = products@;
        products.push(multiply_vec(piece));
        proof {
            assert(values(products@) =~= values(old_products).push(products@[i as int]@));
            assert(chunk_products(pieces).take(i + 1) =~= chunk_products(pieces).take(i as int).push(
                chunk_products(pieces)[i as int],
            ));
        }
        i = i + 1;
    }
    proof {
        let n = number_of_primes as nat;
        assert(chunk_products(pieces).take(count as int) =~= chunk_products(pieces));
        lemma_chunked_product(primes@, thread_chunk_size(primes@.len()));
        if n > 0 {
            assert(sieve_result(16 * n) == primes_upto(16 * n));
        } else {
            assert(as_nats(primes@) =~= primes_upto(16 * n).take(n as int));
        }
    }
    multiply_all(products)
}

} // verus!
