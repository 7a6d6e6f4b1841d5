//! Downloading one checkpoint: the transaction digests are fetched in chunks,
//! and the chunks' answers are put back together.
use vstd::prelude::*;

use crate::sui_model::TransactionDigest;

verus! {

/// How many transactions one multi-get request asks for.
pub const MULTI_GET_CHUNK_SIZE: usize = 50;

/// `s` cut into consecutive chunks of `n` elements, the last one possibly
/// shorter; no chunk is empty.
pub open spec fn chunks_spec<A>(s: Seq<A>, n: nat) -> Seq<Seq<A>>
    decreases s.len(),
{
    if s.len() == 0 || n == 0 {
        Seq::empty()
    } else if s.len() <= n {
        seq![s]
    } else {
        seq![s.take(n as int)] + chunks_spec(s.skip(n as int), n)
    }
}

/// The concatenation of the sequences of `ss`, in order.
pub open spec fn concat_spec<A>(ss: Seq<Seq<A>>) -> Seq<A>
    decreases ss.len(),
{
    if ss.len() == 0 {
        Seq::empty()
    } else {
        concat_spec(ss.drop_last()) + ss.last()
    }
}

/// Concatenating a sequence in front of a concatenation.
pub proof fn lemma_concat_prepend<A>(x: Seq<A>, ss: Seq<Seq<A>>)
    ensures
        concat_spec(seq![x] + ss) == x + concat_spec(ss),
    decreases ss.len(),
{
    if ss.len() == 0 {
        assert(seq![x] + ss =~= seq![x]);
        assert(seq![x].drop_last() =~= Seq::<Seq<A>>::empty());
        assert(seq![x].last() == x);
        assert(concat_spec(Seq::<Seq<A>>::empty()) == Seq::<A>::empty());
        assert(concat_spec(seq![x]) == concat_spec(seq![x].drop_last()) + seq![x].last());
        assert(Seq::<A>::empty() + x =~= x);
        assert(x + Seq::<A>::empty() =~= x);
    } else {
        lemma_concat_prepend(x, ss.drop_last());
        assert((seq![x] + ss).drop_last() =~= seq![x] + ss.drop_last());
        assert((seq![x] + ss).last() == ss.last());
        assert(x + concat_spec(ss.drop_last()) + ss.last() =~= x + (concat_spec(ss.drop_last())
            + ss.last()));
    }
}

/// Cutting into chunks and putting them back together gives what was cut,
/// and every chunk but the last is full.
pub proof fn lemma_chunks<A>(s: Seq<A>, n: nat)
    requires
        n > 0,
    ensures
        concat_spec(chunks_spec(s, n)) == s,
        forall|i: int|
            0 <= i < chunks_spec(s, n).len() ==> 0 < (#[trigger] chunks_spec(s, n)[i]).len() <= n,
        forall|i: int|
            0 <= i < chunks_spec(s, n).len() - 1 ==> (#[trigger] chunks_spec(s, n)[i]).len() == n,
        chunks_spec(s, n).len() == (s.len() + n - 1) / (n as int),
    decreases s.len(),
{
    if s.len() == 0 {
        assert(concat_spec(Seq::<Seq<A>>::empty()) == Seq::<A>::empty());
        assert(s =~= Seq::<A>::empty());
        assert((n - 1) / (n as int) == 0) by (nonlinear_arith)
            requires
                n > 0,
        ;
    } else if s.len() <= n {
        assert(seq![s].drop_last() =~= Seq::<Seq<A>>::empty());
        assert(seq![s].last() == s);
        assert(concat_spec(Seq::<Seq<A>>::empty()) == Seq::<A>::empty());
        assert(concat_spec(seq![s]) == concat_spec(seq![s].drop_last()) + seq![s].last());
        assert(Seq::<A>::empty() + s =~= s);
        let l = s.len();
        assert((l + n - 1) / (n as int) == 1) by (nonlinear_arith)
            requires
                0 < l <= n,
        ;
    } else {
        let rest = s.skip(n as int);
        lemma_chunks(rest, n);
        lemma_concat_prepend(s.take(n as int), chunks_spec(rest, n));
        assert(chunks_spec(s, n) == seq![s.take(n as int)] + chunks_spec(rest, n));
        assert(s.take(n as int) + rest =~= s);
        let l = s.len();
        let q = (rest.len() + n - 1) / (n as int);
        assert((l + n - 1) / (n as int) == q + 1) by (nonlinear_arith)
            requires
                rest.len() == l - n,
                q == (rest.len() + n - 1) / (n as int),
                n > 0,
                l > n,
        ;
        assert forall|i: int| 0 <= i < chunks_spec(s, n).len() implies 0 < (#[trigger] chunks_spec(
            s,
            n,
        )[i]).len() <= n by {
            if i > 0 {
                assert(chunks_spec(s, n)[i] == chunks_spec(rest, n)[i - 1]);
            }
        }
        assert forall|i: int| 0 <= i < chunks_spec(s, n).len() - 1 implies (#[trigger] chunks_spec(
            s,
            n,
        )[i]).len() == n by {
            if i > 0 {
                assert(chunks_spec(s, n)[i] == chunks_spec(rest, n)[i - 1]);
            }
        }
    }
}

/// The views of a vector of vectors.
pub open spec fn vec_views<A>(v: Seq<Vec<A>>) -> Seq<Seq<A>> {
    v.map_values(|x: Vec<A>| x@)
}

/// The transaction digests `digests` cut into consecutive chunks of
/// `chunk_size`, the last one possibly shorter; no chunk is empty.
pub fn chunk_digests(digests: &Vec<TransactionDigest>, chunk_size: usize) -> (r: Vec<
    Vec<TransactionDigest>,
>)
    requires
        chunk_size > 0,
    ensures
        vec_views(r@) == chunks_spec(digests@, chunk_size as nat),
{
    let mut r: Vec<Vec<TransactionDigest>> = Vec::new();
    let mut start: usize = 0;
    proof {
        assert(digests@.skip(0) =~= digests@);
        assert(vec_views(r@) + chunks_spec(digests@.skip(0), chunk_size as nat) =~= chunks_spec(
            digests@,
            chunk_size as nat,
        ));
    }
    while start < digests.len()
        invariant
            start <= digests.len(),
            chunk_size > 0,
            vec_views(r@) + chunks_spec(digests@.skip(start as int), chunk_size as nat)
                == chunks_spec(digests@, chunk_size as nat),
        decreases digests.len() - start,
    {
        let rest = digests.len() - start;
        let end = if rest <= chunk_size {
            digests.len()
        } else {
            start + chunk_size
        };
        let mut chunk: Vec<TransactionDigest> = Vec::new();
        let mut k: usize = start;
        while k < end
            invariant
                start <= k <= end,
                end <= digests.len(),
                chunk@ == digests@.subrange(start as int, k as int),
            decreases end - k,
        {
            chunk.push(digests[k]);
            k = k + 1;
            assert(chunk@ =~= digests@.subrange(start as int, k as int));
        }
        let ghost tail = digests@.skip(start as int);
        let ghost before = vec_views(r@);
        r.push(chunk);
        proof {
            assert(vec_views(r@) =~= before.push(digests@.subrange(start as int, end as int)));
            if rest <= chunk_size {
                assert(tail =~= digests@.subrange(start as int, end as int));
                assert(digests@.skip(end as int) =~= Seq::<TransactionDigest>::empty());
                assert(chunks_spec(tail, chunk_size as nat) == seq![tail]);
            } else {
                assert(tail.take(chunk_size as int) =~= digests@.subrange(start as int, end as int));
                assert(tail.skip(chunk_size as int) =~= digests@.skip(end as int));
            }
            assert(before.push(digests@.subrange(start as int, end as int)) + chunks_spec(
                digests@.skip(end as int),
                chunk_size as nat,
            ) =~= before + chunks_spec(tail, chunk_size as nat));
        }
        start = end;
    }
    proof {
        assert(digests@.skip(start as int) =~= Seq::<TransactionDigest>::empty());
        assert(vec_views(r@) + Seq::<Seq<TransactionDigest>>::empty() =~= vec_views(r@));
    }
    r
}

/// The first error among the answers `results`, if any.
pub open spec fn first_error<T, E>(results: Seq<Result<Vec<T>, E>>) -> Option<E>
    decreases results.len(),
{
    if results.len() == 0 {
        None
    } else {
        match results[0] {
            Err(e) => Some(e),
            Ok(_) => first_error(results.drop_first()),
        }
    }
}

/// The items of the answers `results`, answer after answer, where all are
/// answers with items.
pub open spec fn ok_items<T, E>(results: Seq<Result<Vec<T>, E>>) -> Seq<T>
    decreases results.len(),
{
    if results.len() == 0 {
        Seq::empty()
    } else {
        match results[0] {
            Ok(v) => v@ + ok_items(results.drop_first()),
            Err(_) => Seq::empty(),
        }
    }
}

/// The answers before position `n` all have items.
pub open spec fn all_ok_before<T, E>(results: Seq<Result<Vec<T>, E>>, n: int) -> bool {
    forall|j: int| 0 <= j < n ==> #[trigger] results[j] is Ok
}

/// The answers put back together fail exactly when some answer is an error,
/// and then with the first error among them.
pub proof fn lemma_first_error_is_first<T, E>(results: Seq<Result<Vec<T>, E>>)
    ensures
        first_error(results) is None <==> all_ok_before(results, results.len() as int),
        forall|i: int|
            0 <= i < results.len() && #[trigger] all_ok_before(results, i) && results[i] is Err
                ==> first_error(results) == Some(results[i]->Err_0),
    decreases results.len(),
{
    if results.len() > 0 {
        let rest = results.drop_first();
        lemma_first_error_is_first(rest);
        assert forall|j: int| 0 <= j < rest.len() implies rest[j] == results[j + 1] by {}
        if results[0] is Ok {
            if all_ok_before(rest, rest.len() as int) {
                assert forall|j: int| 0 <= j < results.len() implies #[trigger] results[j] is Ok by {
                    if j > 0 {
                        assert(rest[j - 1] is Ok);
                    }
                }
            }
            if all_ok_before(results, results.len() as int) {
                assert forall|j: int| 0 <= j < rest.len() implies #[trigger] rest[j] is Ok by {
                    assert(results[j + 1] is Ok);
                }
            }
            assert forall|i: int|
                0 <= i < results.len() && #[trigger] all_ok_before(results, i) && results[i] is Err
                    implies first_error(results) == Some(results[i]->Err_0) by {
                assert(i > 0);
                assert forall|j: int| 0 <= j < i - 1 implies #[trigger] rest[j] is Ok by {
                    assert(results[j + 1] is Ok);
                }
                assert(all_ok_before(rest, i - 1));
                assert(rest[i - 1] == results[i]);
            }
        } else {
            assert(!all_ok_before(results, results.len() as int));
            assert forall|i: int|
                0 <= i < results.len() && #[trigger] all_ok_before(results, i) && results[i] is Err
                    implies first_error(results) == Some(results[i]->Err_0) by {
                if i > 0 {
                    assert(results[0] is Ok);
                }
            }
        }
    }
}

/// Putting together the answers of two runs of requests that all have items
/// gives the items of the first run followed by those of the second.
pub proof fn lemma_ok_items_concat<T, E>(a: Seq<Result<Vec<T>, E>>, b: Seq<Result<Vec<T>, E>>)
    requires
        all_ok_before(a, a.len() as int),
    ensures
        ok_items(a + b) == ok_items(a) + ok_items(b),
    decreases a.len(),
{
    if a.len() == 0 {
        assert(a + b =~= b);
        assert(Seq::<T>::empty() + ok_items(b) =~= ok_items(b));
    } else {
        let rest = a.drop_first();
        assert forall|j: int| 0 <= j < rest.len() implies #[trigger] rest[j] is Ok by {
            assert(a[j + 1] is Ok);
        }
        lemma_ok_items_concat(rest, b);
        assert((a + b)[0] == a[0]);
        assert((a + b).drop_first() =~= rest + b);
        assert(a[0] is Ok);
        let v = a[0]->Ok_0;
        assert(v@ + (ok_items(rest) + ok_items(b)) =~= (v@ + ok_items(rest)) + ok_items(b));
    }
}

/// One answer with items gives exactly its items.
pub proof fn lemma_ok_items_single<T, E>(v: Vec<T>)
    ensures
        ok_items(seq![Ok::<Vec<T>, E>(v)]) == v@,
{
    let s = seq![Ok::<Vec<T>, E>(v)];
    assert(s.drop_first() =~= Seq::<Result<Vec<T>, E>>::empty());
    assert(ok_items(s.drop_first()) == Seq::<T>::empty());
    assert(s[0] == Ok::<Vec<T>, E>(v));
    assert(ok_items(s) == v@ + ok_items(s.drop_first()));
    assert(v@ + Seq::<T>::empty() =~= v@);
}

/// Puts the answers to the chunked requests back together: the first error
/// among them, or else all their items, answer after answer.
pub fn concat_chunk_results<T, E>(results: Vec<Result<Vec<T>, E>>) -> (r: Result<Vec<T>, E>)
    ensures
        match first_error(results@) {
            Some(e) => r == Err::<Vec<T>, E>(e),
            None => r matches Ok(v) && v@ == ok_items(results@),
        },
{
    let ghost all = results@;
    let mut acc: Vec<T> = Vec::new();
    let mut i: usize = 0;
    proof {
        assert(all.len() == results.len());
        assert(all.skip(0) =~= all);
        assert(acc@ + ok_items(all) =~= ok_items(all));
    }
    for chunk in it: results
        invariant
            it.seq() == all,
            i == it.index(),
            i <= all.len(),
            all.len() <= usize::MAX,
            first_error(all) == first_error(all.skip(i as int)),
            first_error(all) is None ==> ok_items(all) == acc@ + ok_items(all.skip(i as int)),
    {
        proof {
            assert(chunk == all[i as int]);
            assert(all.skip(i as int)[0] == all[i as int]);
            assert(all.skip(i as int).drop_first() =~= all.skip(i + 1));
        }
        match chunk {
            Ok(mut items) => {
                proof {
                    if first_error(all) is None {
                        assert(acc@ + (items@ + ok_items(all.skip(i + 1))) =~= acc@ + items@
                            + ok_items(all.skip(i + 1)));
                    }
                }
                acc.append(&mut items);
            },
            Err(e) => {
                return Err(e);
            },
        }
        i = i + 1;
    }
    proof {
        assert(all.skip(i as int) =~= Seq::<Result<Vec<T>, E>>::empty());
        assert(acc@ + Seq::<T>::empty() =~= acc@);
    }
    Ok(acc)
}


/// How long to wait, in milliseconds, before each request for a checkpoint
/// that may not exist yet.
pub const CHECKPOINT_POLL_INTERVAL_MS: u64 = 100;

/// What to do after one request for a checkpoint.
pub enum PollStep<T> {
    /// The checkpoint arrived.
    Done(T),
    /// It is not available yet: wait [`CHECKPOINT_POLL_INTERVAL_MS`] and ask again.
    Retry,
}

/// The step after an answer to a request for a checkpoint: done with the
/// checkpoint if the request succeeded, else ask again, whatever the error.
pub fn checkpoint_poll_step<T, E>(answer: Result<T, E>) -> (r: PollStep<T>)
    ensures
        match answer {
            Ok(c) => r == PollStep::Done(c),
            Err(_) => r == PollStep::<T>::Retry,
        },
{
    match answer {
        Ok(c) => PollStep::Done(c),
        Err(_) => PollStep::Retry,
    }
}

} // verus!
