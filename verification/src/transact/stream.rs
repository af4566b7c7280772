//! Fallible sequences as values: where they end, and what a join makes of them.

use vstd::prelude::*;
use crate::data::tuple::RowResult;
use crate::data::value::Value;
use crate::error::QueryError;

verus! {

/// Whether a fallible sequence holds an error.
pub open spec fn has_error<T>(s: Seq<Result<T, QueryError>>) -> bool {
    exists|i: int| 0 <= i < s.len() && (#[trigger] s[i]) is Err
}

/// A fallible sequence up to its first error, the error included; all of it
/// where it holds none.
pub open spec fn until_error<T>(s: Seq<Result<T, QueryError>>) -> Seq<Result<T, QueryError>>
    decreases s.len(),
{
    if s.len() == 0 {
        s
    } else if s[0] is Err {
        seq![s[0]]
    } else {
        seq![s[0]] + until_error(s.skip(1))
    }
}

/// Each row of `left` replaced by the elements that `f` gives for it, and each
/// error of `left` kept in its place.
pub open spec fn flat_map_ok(left: Seq<RowResult>, f: spec_fn(Seq<Value>) -> Seq<RowResult>) -> Seq<
    RowResult,
>
    decreases left.len(),
{
    if left.len() == 0 {
        Seq::empty()
    } else {
        flat_map_ok(left.drop_last(), f) + match left.last() {
            Ok(t) => f(t),
            Err(e) => seq![Err(e)],
        }
    }
}

/// A sequence without an error is its own cut.
pub proof fn lemma_until_error_none<T>(s: Seq<Result<T, QueryError>>)
    requires
        !has_error(s),
    ensures
        until_error(s) == s,
    decreases s.len(),
{
    if s.len() > 0 {
        assert(s[0] is Ok);
        assert forall|i: int| 0 <= i < s.skip(1).len() implies (#[trigger] s.skip(1)[i]) is Ok by {
            assert(s[i + 1] is Ok);
        }
        lemma_until_error_none(s.skip(1));
        assert(seq![s[0]] + s.skip(1) =~= s);
    }
}

/// The cut of a concatenation: where the first part holds an error, the cut
/// of that part; else the first part and the cut of the second.
pub proof fn lemma_until_error_concat<T>(a: Seq<Result<T, QueryError>>, b: Seq<Result<T, QueryError>>)
    ensures
        until_error(a + b) == if has_error(a) {
            until_error(a)
        } else {
            a + until_error(b)
        },
    decreases a.len(),
{
    if a.len() == 0 {
        assert(a + b =~= b);
        assert(a + until_error(b) =~= until_error(b));
    } else {
        assert((a + b)[0] == a[0]);
        if a[0] is Err {
        } else {
            assert((a + b).skip(1) =~= a.skip(1) + b);
            lemma_until_error_concat(a.skip(1), b);
            if has_error(a) {
                let i = choose|i: int| 0 <= i < a.len() && (#[trigger] a[i]) is Err;
                assert(a.skip(1)[i - 1] is Err);
            } else {
                assert forall|i: int| 0 <= i < a.skip(1).len() implies (#[trigger] a.skip(1)[i]) is Ok by {
                    assert(a[i + 1] is Ok);
                }
                assert(seq![a[0]] + (a.skip(1) + until_error(b)) =~= a + until_error(b));
            }
        }
    }
}

/// The cut holds at most one error, at its end, and the same elements as the
/// sequence up to there.
pub proof fn lemma_until_error_shape<T>(s: Seq<Result<T, QueryError>>)
    ensures
        until_error(s).len() <= s.len(),
        forall|i: int| 0 <= i < until_error(s).len() ==> until_error(s)[i] == s[i],
        forall|i: int| 0 <= i < until_error(s).len() - 1 ==> (#[trigger] until_error(s)[i]) is Ok,
        has_error(s) ==> until_error(s).len() > 0 && until_error(s).last() is Err,
        !has_error(s) ==> until_error(s) == s,
    decreases s.len(),
{
    if s.len() == 0 {
    } else if s[0] is Err {
    } else {
        lemma_until_error_shape(s.skip(1));
        let rest = until_error(s.skip(1));
        assert forall|i: int| 0 <= i < until_error(s).len() implies until_error(s)[i] == s[i] by {
            if i > 0 {
                assert(until_error(s)[i] == rest[i - 1]);
                assert(s.skip(1)[i - 1] == s[i]);
            }
        }
        assert forall|i: int| 0 <= i < until_error(s).len() - 1 implies (#[trigger] until_error(
            s,
        )[i]) is Ok by {
            if i > 0 {
                assert(until_error(s)[i] == rest[i - 1]);
            }
        }
        if has_error(s) {
            let i = choose|i: int| 0 <= i < s.len() && (#[trigger] s[i]) is Err;
            assert(s.skip(1)[i - 1] is Err);
            assert(until_error(s).last() == rest.last());
        } else {
            lemma_until_error_none(s);
        }
    }
}

/// `flat_map_ok` of a concatenation is the concatenation of the two results.
pub proof fn lemma_flat_map_ok_concat(
    a: Seq<RowResult>,
    b: Seq<RowResult>,
    f: spec_fn(Seq<Value>) -> Seq<RowResult>,
)
    ensures
        flat_map_ok(a + b, f) == flat_map_ok(a, f) + flat_map_ok(b, f),
    decreases b.len(),
{
    if b.len() == 0 {
        assert(a + b =~= a);
        assert(flat_map_ok(a, f) + flat_map_ok(b, f) =~= flat_map_ok(a, f));
    } else {
        assert((a + b).drop_last() =~= a + b.drop_last());
        assert((a + b).last() == b.last());
        lemma_flat_map_ok_concat(a, b.drop_last(), f);
        let tail = match b.last() {
            Ok(t) => f(t),
            Err(e) => seq![Err(e)],
        };
        assert((flat_map_ok(a, f) + flat_map_ok(b.drop_last(), f)) + tail =~= flat_map_ok(a, f) + (
        flat_map_ok(b.drop_last(), f) + tail));
    }
}

/// Each element of `flat_map_ok` comes from an element of `left`: it is one of
/// the elements that `f` gives for a row of `left`, or an error of `left`.
/// The lemma returns the place of that element of `left`.
pub proof fn lemma_flat_map_ok_source(
    left: Seq<RowResult>,
    f: spec_fn(Seq<Value>) -> Seq<RowResult>,
    i: int,
) -> (j: int)
    requires
        0 <= i < flat_map_ok(left, f).len(),
    ensures
        0 <= j < left.len(),
        match left[j] {
            Ok(t) => f(t).contains(flat_map_ok(left, f)[i]),
            Err(e) => flat_map_ok(left, f)[i] == Err::<Seq<Value>, QueryError>(e),
        },
    decreases left.len(),
{
    let shorter = left.drop_last();
    let before = flat_map_ok(shorter, f);
    if i < before.len() {
        let j = lemma_flat_map_ok_source(shorter, f, i);
        assert(shorter[j] == left[j]);
        j
    } else {
        let j = left.len() - 1;
        match left.last() {
            Ok(t) => {
                assert(f(t)[i - before.len()] == flat_map_ok(left, f)[i]);
            },
            Err(e) => {},
        }
        j
    }
}

/// Where the part before holds no error and the next part holds one, the cut
/// ends inside that part, whatever follows.
pub proof fn lemma_until_error_stops<T>(
    done: Seq<Result<T, QueryError>>,
    part: Seq<Result<T, QueryError>>,
    rest: Seq<Result<T, QueryError>>,
)
    requires
        !has_error(done),
        has_error(part),
    ensures
        until_error((done + part) + rest) == done + until_error(part),
{
    let i = choose|i: int| 0 <= i < part.len() && (#[trigger] part[i]) is Err;
    assert((done + part)[done.len() + i] is Err);
    lemma_until_error_concat(done + part, rest);
    lemma_until_error_concat(done, part);
}

/// Two sequences without an error make one without an error.
pub proof fn lemma_no_error_concat<T>(a: Seq<Result<T, QueryError>>, b: Seq<Result<T, QueryError>>)
    requires
        !has_error(a),
        !has_error(b),
    ensures
        !has_error(a + b),
{
    if has_error(a + b) {
        let i = choose|i: int| 0 <= i < (a + b).len() && (#[trigger] (a + b)[i]) is Err;
        if i < a.len() {
            assert(a[i] is Err);
        } else {
            assert(b[i - a.len()] is Err);
        }
    }
}

} // verus!
