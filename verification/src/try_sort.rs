//! A stable sort whose comparisons may fail.
use vstd::prelude::*;

verus! {

// ── How a sort goes ──────────────────────────────────────────────────────────

/// What may be said when it is asked whether the value at one place is less than
/// that at another: that it is, that it is not, or an error.
pub type Saying<E> = spec_fn(usize, usize, Result<bool, E>) -> bool;

/// Whether merging two runs, behind what was merged before, may come out so. The
/// heads of the runs are compared, and that of the right one goes first where it
/// is less. An error ends it.
pub open spec fn merging<E>(
    may: Saying<E>,
    left: Seq<usize>,
    right: Seq<usize>,
    done: Seq<usize>,
    r: Result<Seq<usize>, E>,
) -> bool
    decreases left.len() + right.len(),
{
    if left.len() == 0 || right.len() == 0 {
        r == Ok::<Seq<usize>, E>(done + left + right)
    } else {
        ||| r matches Err(e) && may(right[0], left[0], Err(e))
        ||| may(right[0], left[0], Ok(true)) && merging(may, left, right.drop_first(), done.push(right[0]), r)
        ||| may(right[0], left[0], Ok(false)) && merging(may, left.drop_first(), right, done.push(left[0]), r)
    }
}

/// Whether merging the runs of a width two by two, from one place on, may come
/// out so.
pub open spec fn passing<E>(
    may: Saying<E>,
    n: nat,
    idx: Seq<usize>,
    width: int,
    start: int,
    done: Seq<usize>,
    r: Result<Seq<usize>, E>,
) -> bool
    decreases n - start,
{
    if start >= n || width <= 0 {
        r == Ok::<Seq<usize>, E>(done)
    } else {
        let mid = cap(start + width, n as int);
        let end = cap(mid + width, n as int);
        let left = idx.subrange(start, mid);
        let right = idx.subrange(mid, end);
        ||| r is Err && merging(may, left, right, done, r)
        ||| exists|next: Seq<usize>| #[trigger]
            merging(may, left, right, done, Ok(next)) && passing(may, n, idx, width, end, next, r)
    }
}

/// Whether merging runs of a width, then those of twice the width and so on may
/// come out so.
pub open spec fn sorting<E>(
    may: Saying<E>,
    n: nat,
    idx: Seq<usize>,
    width: int,
    r: Result<Seq<usize>, E>,
) -> bool
    decreases 2 * n - width,
{
    if width >= n || width <= 0 {
        r == Ok::<Seq<usize>, E>(idx)
    } else {
        ||| r is Err && passing(may, n, idx, width, 0, Seq::empty(), r)
        ||| exists|next: Seq<usize>| #[trigger]
            passing(may, n, idx, width, 0, Seq::empty(), Ok(next)) && sorting(may, n, next, 2 * width, r)
    }
}

/// The places of so many values, as they came.
pub open spec fn in_order(n: nat) -> Seq<usize> {
    Seq::new(n, |i: int| i as usize)
}

/// Whether sorting so many values may come out so: their places in order, or an
/// error.
pub open spec fn sorts<E>(may: Saying<E>, n: nat, r: Result<Seq<usize>, E>) -> bool {
    sorting(may, n, in_order(n), 1, r)
}

/// Whether only one thing may be said of any two places.
pub open spec fn one_answer<E>(may: Saying<E>) -> bool {
    forall|x: usize, y: usize, a: Result<bool, E>, b: Result<bool, E>| #[trigger]
        may(x, y, a) && #[trigger] may(x, y, b) ==> a == b
}

proof fn lemma_merging_one<E>(
    may: Saying<E>,
    left: Seq<usize>,
    right: Seq<usize>,
    done: Seq<usize>,
    a: Result<Seq<usize>, E>,
    b: Result<Seq<usize>, E>,
)
    requires
        one_answer(may),
        merging(may, left, right, done, a),
        merging(may, left, right, done, b),
    ensures
        a == b,
    decreases left.len() + right.len(),
{
    if left.len() > 0 && right.len() > 0 {
        if may(right[0], left[0], Ok(true)) {
            lemma_merging_one(may, left, right.drop_first(), done.push(right[0]), a, b);
        } else if may(right[0], left[0], Ok(false)) {
            lemma_merging_one(may, left.drop_first(), right, done.push(left[0]), a, b);
        }
    }
}

proof fn lemma_passing_one<E>(
    may: Saying<E>,
    n: nat,
    idx: Seq<usize>,
    width: int,
    start: int,
    done: Seq<usize>,
    a: Result<Seq<usize>, E>,
    b: Result<Seq<usize>, E>,
)
    requires
        one_answer(may),
        passing(may, n, idx, width, start, done, a),
        passing(may, n, idx, width, start, done, b),
    ensures
        a == b,
    decreases n - start,
{
    if start < n && width > 0 {
        let mid = cap(start + width, n as int);
        let end = cap(mid + width, n as int);
        let left = idx.subrange(start, mid);
        let right = idx.subrange(mid, end);
        let (x, y) = (
            lemma_first_merge(may, n, idx, width, start, done, a),
            lemma_first_merge(may, n, idx, width, start, done, b),
        );
        lemma_merging_one(may, left, right, done, x, y);
        match x {
            Ok(next) => {
                lemma_passing_one(may, n, idx, width, end, next, a, b);
            },
            Err(_) => {},
        }
    }
}

/// What came of the first merge of a pass.
proof fn lemma_first_merge<E>(
    may: Saying<E>,
    n: nat,
    idx: Seq<usize>,
    width: int,
    start: int,
    done: Seq<usize>,
    r: Result<Seq<usize>, E>,
) -> (m: Result<Seq<usize>, E>)
    requires
        passing(may, n, idx, width, start, done, r),
        start < n,
        width > 0,
    ensures
        ({
            let mid = cap(start + width, n as int);
            let end = cap(mid + width, n as int);
            &&& merging(may, idx.subrange(start, mid), idx.subrange(mid, end), done, m)
            &&& match m {
                Ok(next) => passing(may, n, idx, width, end, next, r),
                Err(_) => r == m,
            }
        }),
{
    let mid = cap(start + width, n as int);
    let end = cap(mid + width, n as int);
    let left = idx.subrange(start, mid);
    let right = idx.subrange(mid, end);
    if r is Err && merging(may, left, right, done, r) {
        r
    } else {
        let next = choose|next: Seq<usize>| #[trigger]
            merging(may, left, right, done, Ok(next)) && passing(may, n, idx, width, end, next, r);
        Ok(next)
    }
}

proof fn lemma_sorting_one<E>(
    may: Saying<E>,
    n: nat,
    idx: Seq<usize>,
    width: int,
    a: Result<Seq<usize>, E>,
    b: Result<Seq<usize>, E>,
)
    requires
        one_answer(may),
        sorting(may, n, idx, width, a),
        sorting(may, n, idx, width, b),
    ensures
        a == b,
    decreases 2 * n - width,
{
    if width < n && width > 0 {
        let (x, y) = (lemma_first_pass(may, n, idx, width, a), lemma_first_pass(may, n, idx, width, b));
        lemma_passing_one(may, n, idx, width, 0, Seq::empty(), x, y);
        match x {
            Ok(next) => {
                lemma_sorting_one(may, n, next, 2 * width, a, b);
            },
            Err(_) => {},
        }
    }
}

/// What came of the first pass of a sort.
proof fn lemma_first_pass<E>(
    may: Saying<E>,
    n: nat,
    idx: Seq<usize>,
    width: int,
    r: Result<Seq<usize>, E>,
) -> (m: Result<Seq<usize>, E>)
    requires
        sorting(may, n, idx, width, r),
        0 < width < n,
    ensures
        passing(may, n, idx, width, 0, Seq::empty(), m),
        match m {
            Ok(next) => sorting(may, n, next, 2 * width, r),
            Err(_) => r == m,
        },
{
    if r is Err && passing(may, n, idx, width, 0, Seq::empty(), r) {
        r
    } else {
        let next = choose|next: Seq<usize>| #[trigger]
            passing(may, n, idx, width, 0, Seq::empty(), Ok(next)) && sorting(may, n, next, 2 * width, r);
        Ok(next)
    }
}

/// Where the comparison has one answer for any two values, a sort has one
/// outcome: the same order, or the same error.
pub proof fn law_sort_has_one_outcome<E>(
    may: Saying<E>,
    n: nat,
    a: Result<Seq<usize>, E>,
    b: Result<Seq<usize>, E>,
)
    requires
        one_answer(may),
        sorts(may, n, a),
        sorts(may, n, b),
    ensures
        a == b,
{
    lemma_sorting_one(may, n, in_order(n), 1, a, b);
}

/// A result with its error under another name.
pub open spec fn renamed<A, E, X>(name: spec_fn(E) -> X, r: Result<A, E>) -> Result<A, X> {
    match r {
        Ok(v) => Ok(v),
        Err(e) => Err(name(e)),
    }
}

/// Whether what may be said by one account may be said by another, with errors
/// under other names.
pub open spec fn retold<E, X>(may: Saying<E>, other: Saying<X>, name: spec_fn(E) -> X) -> bool {
    forall|x: usize, y: usize, l: Result<bool, E>| #[trigger] may(x, y, l) ==> other(x, y, renamed(name, l))
}

proof fn lemma_merging_retold<E, X>(
    may: Saying<E>,
    other: Saying<X>,
    name: spec_fn(E) -> X,
    left: Seq<usize>,
    right: Seq<usize>,
    done: Seq<usize>,
    r: Result<Seq<usize>, E>,
)
    requires
        retold(may, other, name),
        merging(may, left, right, done, r),
    ensures
        merging(other, left, right, done, renamed(name, r)),
    decreases left.len() + right.len(),
{
    if left.len() > 0 && right.len() > 0 {
        let (x, y) = (right[0], left[0]);
        if may(x, y, Ok(true)) && merging(may, left, right.drop_first(), done.push(x), r) {
            lemma_merging_retold(may, other, name, left, right.drop_first(), done.push(x), r);
            assert(other(x, y, renamed(name, Ok::<bool, E>(true))));
        } else if may(x, y, Ok(false)) && merging(may, left.drop_first(), right, done.push(y), r) {
            lemma_merging_retold(may, other, name, left.drop_first(), right, done.push(y), r);
            assert(other(x, y, renamed(name, Ok::<bool, E>(false))));
        } else {
            assert(other(x, y, renamed(name, Err::<bool, E>(r->Err_0))));
        }
    }
}

proof fn lemma_passing_retold<E, X>(
    may: Saying<E>,
    other: Saying<X>,
    name: spec_fn(E) -> X,
    n: nat,
    idx: Seq<usize>,
    width: int,
    start: int,
    done: Seq<usize>,
    r: Result<Seq<usize>, E>,
)
    requires
        retold(may, other, name),
        passing(may, n, idx, width, start, done, r),
    ensures
        passing(other, n, idx, width, start, done, renamed(name, r)),
    decreases n - start,
{
    if start < n && width > 0 {
        let mid = cap(start + width, n as int);
        let end = cap(mid + width, n as int);
        let left = idx.subrange(start, mid);
        let right = idx.subrange(mid, end);
        let m = lemma_first_merge(may, n, idx, width, start, done, r);
        lemma_merging_retold(may, other, name, left, right, done, m);
        match m {
            Ok(next) => {
                lemma_passing_retold(may, other, name, n, idx, width, end, next, r);
                assert(merging(other, left, right, done, Ok(next)));
            },
            Err(_) => {},
        }
    }
}

proof fn lemma_sorting_retold<E, X>(
    may: Saying<E>,
    other: Saying<X>,
    name: spec_fn(E) -> X,
    n: nat,
    idx: Seq<usize>,
    width: int,
    r: Result<Seq<usize>, E>,
)
    requires
        retold(may, other, name),
        sorting(may, n, idx, width, r),
    ensures
        sorting(other, n, idx, width, renamed(name, r)),
    decreases 2 * n - width,
{
    if 0 < width < n {
        let m = lemma_first_pass(may, n, idx, width, r);
        lemma_passing_retold(may, other, name, n, idx, width, 0, Seq::empty(), m);
        match m {
            Ok(next) => {
                lemma_sorting_retold(may, other, name, n, next, 2 * width, r);
                assert(passing(other, n, idx, width, 0, Seq::empty(), Ok(next)));
            },
            Err(_) => {},
        }
    }
}

/// A sort goes by every account of its comparison alike.
pub proof fn lemma_sorts_retold<E, X>(
    may: Saying<E>,
    other: Saying<X>,
    name: spec_fn(E) -> X,
    n: nat,
    r: Result<Seq<usize>, E>,
)
    requires
        retold(may, other, name),
        sorts(may, n, r),
    ensures
        sorts(other, n, renamed(name, r)),
{
    lemma_sorting_retold(may, other, name, n, in_order(n), 1, r);
}

// ── What a sort leaves ───────────────────────────────────────────────────────

/// Whether a comparison may say of two values that the first is less, or that
/// it is not.
pub open spec fn says<T, E, F: Fn(&T, &T) -> Result<bool, E>>(less: F, a: T, b: T, r: bool) -> bool {
    less.ensures((&a, &b), Ok::<bool, E>(r))
}

/// Whether one value may stand right before another: it was found less, or it
/// came first and the other was not found less.
pub open spec fn follows<T, E, F: Fn(&T, &T) -> Result<bool, E>>(less: F, items: Seq<T>, x: int, y: int) -> bool {
    says(less, items[x], items[y], true) || (x < y && says(less, items[y], items[x], false))
}

/// Whether values are others in the order that their places are given in, and
/// each stands right where a comparison put it.
pub open spec fn arranged<T, E, F: Fn(&T, &T) -> Result<bool, E>>(
    less: F,
    items: Seq<T>,
    sorted: Seq<T>,
    places: Seq<int>,
) -> bool {
    &&& sorted.len() == items.len()
    &&& places.len() == items.len()
    &&& forall|i: int| 0 <= i < places.len() ==> 0 <= (#[trigger] places[i]) < items.len()
    &&& forall|i: int, j: int| 0 <= i < j < places.len() ==> (#[trigger] places[i]) != (#[trigger] places[j])
    &&& forall|i: int| 0 <= i < sorted.len() ==> (#[trigger] sorted[i]) == items[places[i]]
    &&& forall|i: int| 0 <= i < places.len() - 1 ==> follows(less, items, #[trigger] places[i], places[i + 1])
}

/// Places as whole numbers.
pub open spec fn ints(s: Seq<usize>) -> Seq<int> {
    s.map_values(|k: usize| k as int)
}

/// What a comparison may say of the values at two places.
pub open spec fn asked<T, E, F: Fn(&T, &T) -> Result<bool, E>>(less: F, items: Seq<T>) -> Saying<E> {
    |x: usize, y: usize, l: Result<bool, E>|
        x < items.len() && y < items.len() && less.ensures((&items[x as int], &items[y as int]), l)
}

/// Whether values are what a sort may make of others: merged run by run, by what
/// the comparison says each time that it is asked.
pub open spec fn sorted_by<T, E, F: Fn(&T, &T) -> Result<bool, E>>(less: F, items: Seq<T>, sorted: Seq<T>) -> bool {
    exists|places: Seq<usize>| #[trigger]
        sorts(asked(less, items), items.len(), Ok::<Seq<usize>, E>(places)) && arranged(
            less,
            items,
            sorted,
            ints(places),
        )
}

/// Whether a sort may end with an error: the first that the comparison gives as
/// run is merged with run.
pub open spec fn ends_with<T, E, F: Fn(&T, &T) -> Result<bool, E>>(less: F, items: Seq<T>, e: E) -> bool {
    sorts(asked(less, items), items.len(), Err::<Seq<usize>, E>(e)) && may_fail(less, items, e)
}

/// Whether a comparison of two of the values may fail with an error.
pub open spec fn may_fail<T, E, F: Fn(&T, &T) -> Result<bool, E>>(less: F, items: Seq<T>, e: E) -> bool {
    exists|i: int, j: int|
        0 <= i < items.len() && 0 <= j < items.len() && i != j && less.ensures(
            (&#[trigger] items[i], &#[trigger] items[j]),
            Err::<bool, E>(e),
        )
}

// ── Runs ─────────────────────────────────────────────────────────────────────

/// Whether a stretch of places holds the places of that stretch, in order.
spec fn run<T, E, F: Fn(&T, &T) -> Result<bool, E>>(
    less: F,
    items: Seq<T>,
    idx: Seq<usize>,
    from: int,
    to: int,
) -> bool {
    &&& 0 <= from <= to <= idx.len()
    &&& forall|i: int| from <= i < to ==> from <= (#[trigger] idx[i]) < to
    &&& forall|i: int, j: int| from <= i < j < to ==> (#[trigger] idx[i]) != (#[trigger] idx[j])
    &&& forall|i: int| from <= i < to - 1 ==> follows(less, items, (#[trigger] idx[i]) as int, idx[i + 1] as int)
}

/// A number, or the top where it is beyond that.
pub open spec fn cap(a: int, top: int) -> int {
    if a < top {
        a
    } else {
        top
    }
}

/// Whether places are runs of a width, from one place to another.
spec fn runs<T, E, F: Fn(&T, &T) -> Result<bool, E>>(
    less: F,
    items: Seq<T>,
    idx: Seq<usize>,
    width: int,
    from: int,
    to: int,
) -> bool
    decreases to - from,
{
    if from >= to || width <= 0 {
        from == to
    } else {
        run(less, items, idx, from, cap(from + width, to)) && runs(less, items, idx, width, cap(from + width, to), to)
    }
}

/// Whether steps of a width lead from one place to another.
spec fn leads(from: int, to: int, width: int) -> bool
    decreases to - from,
{
    if from >= to || width <= 0 {
        from == to
    } else if from + width > to {
        false
    } else {
        leads(from + width, to, width)
    }
}

proof fn lemma_leads_on(from: int, to: int, width: int)
    requires
        leads(from, to, width),
        width > 0,
        from <= to,
    ensures
        leads(from, to + width, width),
    decreases to - from,
{
    if from < to {
        lemma_leads_past(from, to, width);
        lemma_leads_on(from + width, to, width);
    } else {
        assert(leads(from + width, to + width, width));
    }
}

proof fn lemma_leads_past(from: int, to: int, width: int)
    requires
        leads(from, to, width),
        width > 0,
        from < to,
    ensures
        from + width <= to,
{
}

proof fn lemma_run_kept<T, E, F: Fn(&T, &T) -> Result<bool, E>>(
    less: F,
    items: Seq<T>,
    a: Seq<usize>,
    b: Seq<usize>,
    from: int,
    to: int,
)
    requires
        run(less, items, a, from, to),
        b.len() >= to,
        forall|i: int| from <= i < to ==> a[i] == b[i],
    ensures
        run(less, items, b, from, to),
{
    assert forall|i: int| from <= i < to - 1 implies follows(
        less,
        items,
        (#[trigger] b[i]) as int,
        b[i + 1] as int,
    ) by {
        assert(a[i] == b[i] && a[i + 1] == b[i + 1]);
    }
    assert forall|i: int| from <= i < to implies from <= (#[trigger] b[i]) < to by {
        assert(a[i] == b[i]);
    }
    assert forall|i: int, j: int| from <= i < j < to implies (#[trigger] b[i]) != (#[trigger] b[j]) by {
        assert(a[i] == b[i] && a[j] == b[j]);
    }
}

/// Runs that reach a place stay, and one that begins there joins them.
proof fn lemma_runs_extend<T, E, F: Fn(&T, &T) -> Result<bool, E>>(
    less: F,
    items: Seq<T>,
    a: Seq<usize>,
    b: Seq<usize>,
    width: int,
    from: int,
    mid: int,
    to: int,
)
    requires
        width > 0,
        0 <= from <= mid < to <= b.len(),
        to - mid <= width,
        leads(from, mid, width),
        runs(less, items, a, width, from, mid),
        a.len() >= mid,
        forall|i: int| 0 <= i < mid ==> a[i] == b[i],
        run(less, items, b, mid, to),
    ensures
        runs(less, items, b, width, from, to),
    decreases mid - from,
{
    if from < mid {
        lemma_leads_past(from, mid, width);
        lemma_run_kept(less, items, a, b, from, from + width);
        lemma_runs_extend(less, items, a, b, width, from + width, mid, to);
    } else {
        assert(runs(less, items, b, width, to, to));
    }
}

proof fn lemma_single_runs<T, E, F: Fn(&T, &T) -> Result<bool, E>>(
    less: F,
    items: Seq<T>,
    idx: Seq<usize>,
    from: int,
)
    requires
        0 <= from <= idx.len(),
        forall|i: int| 0 <= i < idx.len() ==> (#[trigger] idx[i]) == i,
    ensures
        runs(less, items, idx, 1, from, idx.len() as int),
    decreases idx.len() - from,
{
    if from < idx.len() {
        lemma_single_runs(less, items, idx, from + 1);
    }
}

proof fn lemma_asked<T, E, F: Fn(&T, &T) -> Result<bool, E>>(
    less: F,
    items: Seq<T>,
    x: usize,
    y: usize,
    l: Result<bool, E>,
)
    requires
        x < items.len(),
        y < items.len(),
        less.ensures((&items[x as int], &items[y as int]), l),
    ensures
        asked(less, items)(x, y, l),
{
}

/// Merge two runs that lie side by side into one, at the end of another list.
#[verifier::spinoff_prover]
#[verifier::rlimit(30)]
fn merge<T, E, F: Fn(&T, &T) -> Result<bool, E>>(
    items: &Vec<T>,
    less: &F,
    idx: &Vec<usize>,
    out: &mut Vec<usize>,
    start: usize,
    mid: usize,
    end: usize,
) -> (r: Result<(), E>)
    requires
        forall|a: &T, b: &T| #[trigger] less.requires((a, b)),
        start <= mid <= end <= idx@.len(),
        idx@.len() == items@.len(),
        run(*less, items@, idx@, start as int, mid as int),
        run(*less, items@, idx@, mid as int, end as int),
        old(out)@.len() == start,
    ensures
        match r {
            Ok(_) => {
                &&& final(out)@.len() == end
                &&& forall|i: int| 0 <= i < start ==> final(out)@[i] == old(out)@[i]
                &&& run(*less, items@, final(out)@, start as int, end as int)
            },
            Err(e) => may_fail(*less, items@, e),
        },
        merging(
            asked(*less, items@),
            idx@.subrange(start as int, mid as int),
            idx@.subrange(mid as int, end as int),
            old(out)@,
            match r {
                Ok(_) => Ok(final(out)@),
                Err(e) => Err(e),
            },
        ),
{
    let ghost before = out@;
    let ghost may = asked(*less, items@);
    let ghost at = (start as int, mid as int, end as int);
    let mut i: usize = start;
    let mut j: usize = mid;
    proof {
        reveal(merges_on);
    }
    while i < mid || j < end
        invariant
            may == asked(*less, items@),
            at == (start as int, mid as int, end as int),
            before == old(out)@,
            merges_on(may, idx@, at, before, i as int, j as int, out@),
            forall|a: &T, b: &T| #[trigger] less.requires((a, b)),
            start <= i <= mid <= j <= end <= idx@.len(),
            idx@.len() == items@.len(),
            run(*less, items@, idx@, start as int, mid as int),
            run(*less, items@, idx@, mid as int, end as int),
            before.len() == start,
            out@.len() == i + j - mid,
            forall|q: int| 0 <= q < start ==> out@[q] == before[q],
            forall|q: int|
                start <= q < out@.len() ==> start <= (#[trigger] out@[q]) < end && ((out@[q] < mid && exists|l: int|
                    start <= l < i && out@[q] == #[trigger] idx@[l]) || (mid <= out@[q] && exists|l: int|
                    mid <= l < j && out@[q] == #[trigger] idx@[l])),
            forall|p: int, q: int| start <= p < q < out@.len() ==> (#[trigger] out@[p]) != (#[trigger] out@[q]),
            forall|q: int|
                start <= q < out@.len() - 1 ==> follows(
                    *less,
                    items@,
                    (#[trigger] out@[q]) as int,
                    out@[q + 1] as int,
                ),
            out@.len() > start && i < mid ==> follows(*less, items@, out@.last() as int, idx@[i as int] as int),
            out@.len() > start && j < end ==> follows(*less, items@, out@.last() as int, idx@[j as int] as int),
        decreases mid - i + end - j,
    {
        let mut right: bool = j < end;
        let ghost so_far = out@;
        if i < mid && j < end {
            let a: usize = idx[i];
            let b: usize = idx[j];
            match less(&items[b], &items[a]) {
                Ok(l) => {
                    right = l;
                    assert(says(*less, items@[b as int], items@[a as int], l));
                    proof {
                        lemma_asked(*less, items@, b, a, Ok(l));
                    }
                },
                Err(e) => {
                    assert(less.ensures((&items@[b as int], &items@[a as int]), Err::<bool, E>(e)));
                    proof {
                        lemma_asked(*less, items@, b, a, Err(e));
                        lemma_broken_off(may, idx@, at, before, i as int, j as int, so_far, e);
                    }
                    return Err(e);
                },
            }
        }
        proof {
            lemma_one_moved(may, idx@, at, before, i as int, j as int, so_far, right);
        }
        if right {
            let x: usize = idx[j];
            assert forall|q: int| start <= q < so_far.len() implies (#[trigger] so_far[q]) != x by {
                if so_far[q] >= mid {
                    let l = choose|l: int| mid <= l < j && so_far[q] == #[trigger] idx@[l];
                    assert(idx@[l] != idx@[j as int]);
                }
            }
            out.push(x);
            j = j + 1;
            assert(out@[so_far.len() as int] == idx@[j - 1]);
            if j < end {
                assert(follows(*less, items@, idx@[j - 1] as int, idx@[j as int] as int));
            }
            if i < mid {
                assert(follows(*less, items@, x as int, idx@[i as int] as int));
            }
        } else {
            let x: usize = idx[i];
            assert forall|q: int| start <= q < so_far.len() implies (#[trigger] so_far[q]) != x by {
                if so_far[q] < mid {
                    let l = choose|l: int| start <= l < i && so_far[q] == #[trigger] idx@[l];
                    assert(idx@[l] != idx@[i as int]);
                }
            }
            out.push(x);
            i = i + 1;
            assert(out@[so_far.len() as int] == idx@[i - 1]);
            if i < mid {
                assert(follows(*less, items@, idx@[i - 1] as int, idx@[i as int] as int));
            }
            if j < end {
                assert(follows(*less, items@, x as int, idx@[j as int] as int));
            }
        }
        assert forall|q: int| start <= q < out@.len() implies start <= (#[trigger] out@[q]) < end && ((out@[q] < mid
            && exists|l: int| start <= l < i && out@[q] == #[trigger] idx@[l]) || (mid <= out@[q] && exists|l: int|
            mid <= l < j && out@[q] == #[trigger] idx@[l])) by {
            if q < so_far.len() {
                assert(out@[q] == so_far[q]);
                if so_far[q] < mid {
                    let l = choose|l: int| start <= l < i && so_far[q] == #[trigger] idx@[l];
                    assert(out@[q] == idx@[l]);
                } else {
                    let l = choose|l: int| mid <= l < j && so_far[q] == #[trigger] idx@[l];
                    assert(out@[q] == idx@[l]);
                }
            }
        }
        assert forall|q: int| start <= q < out@.len() - 1 implies follows(
            *less,
            items@,
            (#[trigger] out@[q]) as int,
            out@[q + 1] as int,
        ) by {
            assert(out@[q] == so_far[q]);
            if q < so_far.len() - 1 {
                assert(out@[q + 1] == so_far[q + 1]);
            }
        }
    }
    proof {
        lemma_none_left(may, idx@, at, before, i as int, j as int, out@);
    }
    Ok(())
}

/// Whether all that comes of merging what is left of two runs, from two places
/// on, comes of merging the whole of them. `at` is where the runs begin, meet
/// and end.
#[verifier::opaque]
spec fn merges_on<E>(
    may: Saying<E>,
    idx: Seq<usize>,
    at: (int, int, int),
    before: Seq<usize>,
    i: int,
    j: int,
    done: Seq<usize>,
) -> bool {
    forall|w: Result<Seq<usize>, E>| #[trigger]
        merging(may, idx.subrange(i, at.1), idx.subrange(j, at.2), done, w) ==> merging(
            may,
            idx.subrange(at.0, at.1),
            idx.subrange(at.1, at.2),
            before,
            w,
        )
}

proof fn lemma_one_moved<E>(
    may: Saying<E>,
    idx: Seq<usize>,
    at: (int, int, int),
    before: Seq<usize>,
    i: int,
    j: int,
    done: Seq<usize>,
    from_right: bool,
)
    requires
        merges_on(may, idx, at, before, i, j, done),
        0 <= i <= at.1 <= j <= at.2 <= idx.len(),
        from_right ==> j < at.2,
        !from_right ==> i < at.1,
        i < at.1 && j < at.2 ==> may(idx[j], idx[i], Ok(from_right)),
    ensures
        from_right ==> merges_on(may, idx, at, before, i, j + 1, done.push(idx[j])),
        !from_right ==> merges_on(may, idx, at, before, i + 1, j, done.push(idx[i])),
{
    reveal(merges_on);
    let left = idx.subrange(i, at.1);
    let right = idx.subrange(j, at.2);
    if from_right {
        let rest = idx.subrange(j + 1, at.2);
        assert(right.drop_first() =~= rest);
        if left.len() == 0 {
            assert(done.push(right[0]) + left + rest =~= done + left + right);
        }
        assert forall|w: Result<Seq<usize>, E>| #[trigger] merging(may, left, rest, done.push(idx[j]), w) implies merging(
            may,
            idx.subrange(at.0, at.1),
            idx.subrange(at.1, at.2),
            before,
            w,
        ) by {
            assert(merging(may, left, right, done, w));
        }
    } else {
        let rest = idx.subrange(i + 1, at.1);
        assert(left.drop_first() =~= rest);
        if right.len() == 0 {
            assert(done.push(left[0]) + rest + right =~= done + left + right);
        }
        assert forall|w: Result<Seq<usize>, E>| #[trigger] merging(may, rest, right, done.push(idx[i]), w) implies merging(
            may,
            idx.subrange(at.0, at.1),
            idx.subrange(at.1, at.2),
            before,
            w,
        ) by {
            assert(merging(may, left, right, done, w));
        }
    }
}

proof fn lemma_broken_off<E>(
    may: Saying<E>,
    idx: Seq<usize>,
    at: (int, int, int),
    before: Seq<usize>,
    i: int,
    j: int,
    done: Seq<usize>,
    e: E,
)
    requires
        merges_on(may, idx, at, before, i, j, done),
        0 <= i < at.1 <= j < at.2 <= idx.len(),
        may(idx[j], idx[i], Err(e)),
    ensures
        merging(
            may,
            idx.subrange(at.0, at.1),
            idx.subrange(at.1, at.2),
            before,
            Err::<Seq<usize>, E>(e),
        ),
{
    reveal(merges_on);
    let left = idx.subrange(i, at.1);
    let right = idx.subrange(j, at.2);
    assert(left[0] == idx[i] && right[0] == idx[j]);
    assert(merging(may, left, right, done, Err::<Seq<usize>, E>(e)));
}

proof fn lemma_none_left<E>(
    may: Saying<E>,
    idx: Seq<usize>,
    at: (int, int, int),
    before: Seq<usize>,
    i: int,
    j: int,
    done: Seq<usize>,
)
    requires
        merges_on(may, idx, at, before, i, j, done),
        0 <= i == at.1 <= j == at.2 <= idx.len(),
    ensures
        merging(
            may,
            idx.subrange(at.0, at.1),
            idx.subrange(at.1, at.2),
            before,
            Ok::<Seq<usize>, E>(done),
        ),
{
    reveal(merges_on);
    let left = idx.subrange(i, at.1);
    let right = idx.subrange(j, at.2);
    assert(done + left + right =~= done);
    assert(merging(may, left, right, done, Ok::<Seq<usize>, E>(done)));
}

fn in_place(n: usize) -> (r: Vec<usize>)
    ensures
        r@.len() == n,
        forall|i: int| 0 <= i < n ==> (#[trigger] r@[i]) == i,
{
    let mut r: Vec<usize> = Vec::new();
    let mut i: usize = 0;
    while i < n
        invariant
            i <= n,
            r@.len() == i,
            forall|q: int| 0 <= q < i ==> (#[trigger] r@[q]) == q,
        decreases n - i,
    {
        r.push(i);
        i = i + 1;
    }
    r
}

/// The places of values in sorted order.
fn sorted_places<T, E, F: Fn(&T, &T) -> Result<bool, E>>(items: &Vec<T>, less: &F) -> (r: Result<Vec<usize>, E>)
    requires
        forall|a: &T, b: &T| #[trigger] less.requires((a, b)),
    ensures
        match r {
            Ok(idx) => idx@.len() == items@.len() && run(*less, items@, idx@, 0, items@.len() as int),
            Err(e) => may_fail(*less, items@, e),
        },
        sorts(
            asked(*less, items@),
            items@.len(),
            match r {
                Ok(idx) => Ok(idx@),
                Err(e) => Err(e),
            },
        ),
{
    let n: usize = items.len();
    let mut idx = in_place(n);
    let mut width: usize = 1;
    let ghost may = asked(*less, items@);
    assert(idx@ =~= in_order(n as nat));
    proof {
        reveal(sorts_on);
        lemma_single_runs(*less, items@, idx@, 0);
    }
    while width < n
        invariant
            forall|a: &T, b: &T| #[trigger] less.requires((a, b)),
            n == items@.len(),
            idx@.len() == n,
            width > 0,
            runs(*less, items@, idx@, width as int, 0, n as int),
            may == asked(*less, items@),
            sorts_on(may, n as nat, idx@, width as int),
        decreases n - width,
    {
        let mut out: Vec<usize> = Vec::new();
        let mut start: usize = 0;
        assert(out@ =~= Seq::<usize>::empty());
        proof {
            reveal(passes_on);
        }
        let ghost wide = 2 * width;
        while start < n
            invariant
                forall|a: &T, b: &T| #[trigger] less.requires((a, b)),
                n == items@.len(),
                idx@.len() == n,
                0 < width < n,
                wide == 2 * width,
                start <= n,
                out@.len() == start,
                runs(*less, items@, idx@, width as int, start as int, n as int),
                runs(*less, items@, out@, wide as int, 0, start as int),
                start < n ==> leads(0, start as int, wide as int),
                may == asked(*less, items@),
                sorts_on(may, n as nat, idx@, width as int),
                passes_on(may, n as nat, idx@, width as int, start as int, out@),
            decreases n - start,
        {
            let mid: usize = if n - start <= width {
                n
            } else {
                start + width
            };
            let end: usize = if n - mid <= width {
                n
            } else {
                mid + width
            };
            assert(mid == cap(start + width, n as int));
            assert(run(*less, items@, idx@, start as int, mid as int));
            assert(runs(*less, items@, idx@, width as int, mid as int, n as int));
            if mid < n {
                assert(end == cap(mid + width, n as int));
                assert(run(*less, items@, idx@, mid as int, end as int));
                assert(runs(*less, items@, idx@, width as int, end as int, n as int));
            } else {
                assert(run(*less, items@, idx@, mid as int, end as int));
            }
            let ghost before = out@;
            match merge(items, less, &idx, &mut out, start, mid, end) {
                Ok(_) => {},
                Err(e) => {
                    proof {
                        lemma_pass_broken_off(may, n as nat, idx@, width as int, start as int, before, e);
                    }
                    return Err(e);
                },
            }
            proof {
                lemma_merged_on(may, n as nat, idx@, width as int, start as int, before, out@);
                lemma_runs_extend(*less, items@, before, out@, wide as int, 0, start as int, end as int);
                if end < n {
                    lemma_leads_on(0, start as int, wide as int);
                }
            }
            start = end;
        }
        proof {
            lemma_passed(may, n as nat, idx@, width as int, start as int, out@);
        }
        idx = out;
        if width > n - width {
            proof {
                lemma_one_run(*less, items@, idx@, wide as int, n as int, n as int);
                lemma_sorted(may, n as nat, idx@, wide as int, n as int);
            }
            width = n;
        } else {
            width = width * 2;
        }
    }
    proof {
        if n > 0 {
            lemma_one_run(*less, items@, idx@, width as int, n as int, n as int);
        }
        lemma_sorted(may, n as nat, idx@, width as int, width as int);
    }
    Ok(idx)
}

/// Whether all that comes of the rest of a pass comes of the whole of it.
#[verifier::opaque]
spec fn passes_on<E>(may: Saying<E>, n: nat, idx: Seq<usize>, width: int, start: int, done: Seq<usize>) -> bool {
    forall|w: Result<Seq<usize>, E>| #[trigger]
        passing(may, n, idx, width, start, done, w) ==> passing(may, n, idx, width, 0, Seq::empty(), w)
}

/// Whether all that comes of the rest of a sort comes of the whole of it.
#[verifier::opaque]
spec fn sorts_on<E>(may: Saying<E>, n: nat, idx: Seq<usize>, width: int) -> bool {
    forall|w: Result<Seq<usize>, E>| #[trigger] sorting(may, n, idx, width, w) ==> sorts(may, n, w)
}

proof fn lemma_merged_on<E>(
    may: Saying<E>,
    n: nat,
    idx: Seq<usize>,
    width: int,
    start: int,
    before: Seq<usize>,
    after: Seq<usize>,
)
    requires
        0 <= start < n,
        width > 0,
        passes_on(may, n, idx, width, start, before),
        ({
            let mid = cap(start + width, n as int);
            let end = cap(mid + width, n as int);
            merging(may, idx.subrange(start, mid), idx.subrange(mid, end), before, Ok(after))
        }),
    ensures
        passes_on(may, n, idx, width, cap(cap(start + width, n as int) + width, n as int), after),
{
    reveal(passes_on);
    let mid = cap(start + width, n as int);
    let end = cap(mid + width, n as int);
    assert forall|w: Result<Seq<usize>, E>| #[trigger]
        passing(may, n, idx, width, end, after, w) implies passing(may, n, idx, width, 0, Seq::empty(), w) by {
        assert(passing(may, n, idx, width, start, before, w));
    }
}

proof fn lemma_pass_broken_off<E>(
    may: Saying<E>,
    n: nat,
    idx: Seq<usize>,
    width: int,
    start: int,
    before: Seq<usize>,
    e: E,
)
    requires
        0 <= start < n,
        0 < width < n,
        passes_on(may, n, idx, width, start, before),
        sorts_on(may, n, idx, width),
        ({
            let mid = cap(start + width, n as int);
            let end = cap(mid + width, n as int);
            merging(may, idx.subrange(start, mid), idx.subrange(mid, end), before, Err::<Seq<usize>, E>(e))
        }),
    ensures
        sorts(may, n, Err::<Seq<usize>, E>(e)),
{
    reveal(passes_on);
    reveal(sorts_on);
    let w = Err::<Seq<usize>, E>(e);
    assert(passing(may, n, idx, width, start, before, w));
    assert(sorting(may, n, idx, width, w));
}

proof fn lemma_passed<E>(may: Saying<E>, n: nat, idx: Seq<usize>, width: int, start: int, done: Seq<usize>)
    requires
        start >= n,
        0 < width < n,
        passes_on(may, n, idx, width, start, done),
        sorts_on(may, n, idx, width),
    ensures
        sorts_on(may, n, done, 2 * width),
{
    reveal(passes_on);
    reveal(sorts_on);
    assert(passing(may, n, idx, width, start, done, Ok::<Seq<usize>, E>(done)));
    assert(passing(may, n, idx, width, 0, Seq::empty(), Ok::<Seq<usize>, E>(done)));
    assert forall|w: Result<Seq<usize>, E>| #[trigger] sorting(may, n, done, 2 * width, w) implies sorts(may, n, w) by {
        assert(sorting(may, n, idx, width, w));
    }
}

/// Runs as wide as all there is are in order.
proof fn lemma_sorted<E>(may: Saying<E>, n: nat, idx: Seq<usize>, width: int, other: int)
    requires
        sorts_on(may, n, idx, width),
        width >= n,
        other >= n,
    ensures
        sorts_on(may, n, idx, other),
        sorts(may, n, Ok::<Seq<usize>, E>(idx)),
{
    reveal(sorts_on);
    assert(sorting(may, n, idx, width, Ok::<Seq<usize>, E>(idx)));
    assert forall|w: Result<Seq<usize>, E>| #[trigger] sorting(may, n, idx, other, w) implies sorts(may, n, w) by {
        assert(sorting(may, n, idx, width, w));
    }
}

/// Runs as wide as all there is are one run, of any such width.
proof fn lemma_one_run<T, E, F: Fn(&T, &T) -> Result<bool, E>>(
    less: F,
    items: Seq<T>,
    idx: Seq<usize>,
    width: int,
    other: int,
    n: int,
)
    requires
        runs(less, items, idx, width, 0, n),
        width >= n,
        other >= n,
        n > 0,
    ensures
        run(less, items, idx, 0, n),
        runs(less, items, idx, other, 0, n),
{
    assert(runs(less, items, idx, other, n, n));
}

/// Sort values by a comparison that says which are less and may fail. Values
/// of which neither is less keep their order.
pub fn sort_by_less<T, E, F: Fn(&T, &T) -> Result<bool, E>>(items: Vec<T>, less: &F) -> (r: Result<Vec<T>, E>)
    requires
        forall|a: &T, b: &T| #[trigger] less.requires((a, b)),
    ensures
        match r {
            Ok(sorted) => sorted_by(*less, items@, sorted@),
            Err(e) => ends_with(*less, items@, e),
        },
{
    let n: usize = items.len();
    let idx = match sorted_places(&items, less) {
        Ok(idx) => idx,
        Err(e) => {
            return Err(e);
        },
    };
    let ghost all = items@;
    let mut rest = items;
    let mut slots: Vec<Option<T>> = Vec::new();
    while rest.len() > 0
        invariant
            rest@.len() + slots@.len() == n,
            all.len() == n,
            rest@ == all.take(rest@.len() as int),
            forall|k: int| 0 <= k < slots@.len() ==> (#[trigger] slots@[k]) == Some(all[n - 1 - k]),
        decreases rest.len(),
    {
        let ghost m = rest@.len() as int;
        let x = rest.remove(rest.len() - 1);
        assert(x == all[m - 1]);
        assert(rest@ =~= all.take(m - 1));
        slots.push(Some(x));
    }
    let mut sorted: Vec<T> = Vec::new();
    let mut i: usize = 0;
    while i < n
        invariant
            i <= n,
            all.len() == n,
            idx@.len() == n,
            slots@.len() == n,
            run(*less, all, idx@, 0, n as int),
            sorted@.len() == i,
            forall|q: int| 0 <= q < i ==> (#[trigger] sorted@[q]) == all[idx@[q] as int],
            forall|q: int| i <= q < n ==> slots@[n - 1 - (#[trigger] idx@[q])] == Some(all[idx@[q] as int]),
        decreases n - i,
    {
        let mut x: Option<T> = None;
        assert(0 <= idx@[i as int] < n);
        let k: usize = n - 1 - idx[i];
        let ghost before = slots@;
        slots.set_and_swap(k, &mut x);
        assert forall|q: int| i + 1 <= q < n implies slots@[n - 1 - (#[trigger] idx@[q])] == Some(
            all[idx@[q] as int],
        ) by {
            assert(idx@[q] != idx@[i as int]);
            assert(0 <= idx@[q] < n);
        }
        match x {
            Some(v) => {
                sorted.push(v);
            },
            None => {},
        }
        i = i + 1;
    }
    proof {
        let places = ints(idx@);
        assert forall|i: int| 0 <= i < places.len() - 1 implies follows(
            *less,
            all,
            #[trigger] places[i],
            places[i + 1],
        ) by {
            assert(places[i] == idx@[i] && places[i + 1] == idx@[i + 1]);
        }
        assert(arranged(*less, all, sorted@, places));
    }
    Ok(sorted)
}

// ── Ordering ─────────────────────────────────────────────────────────────────

/// Whether an order ranks values and agrees with a comparison: of any two one
/// is at or below the other, what is below stays below, and one is less where
/// the other is not at or below it.
pub open spec fn ranks<T, E, F: Fn(&T, &T) -> Result<bool, E>>(less: F, at_most: spec_fn(T, T) -> bool) -> bool {
    &&& forall|a: T, b: T| #[trigger] at_most(a, b) || at_most(b, a)
    &&& forall|a: T, b: T, c: T| #[trigger] at_most(a, b) && #[trigger] at_most(b, c) ==> at_most(a, c)
    &&& forall|a: T, b: T, r: bool| #[trigger] says(less, a, b, r) ==> r == !at_most(b, a)
}

/// Where a comparison goes by a ranking, each value is at or below those after
/// it, and those of one rank keep the order in which they came.
pub proof fn law_sort_is_stable<T, E, F: Fn(&T, &T) -> Result<bool, E>>(
    less: F,
    at_most: spec_fn(T, T) -> bool,
    items: Seq<T>,
    sorted: Seq<T>,
    places: Seq<int>,
    i: int,
    j: int,
)
    requires
        ranks(less, at_most),
        arranged(less, items, sorted, places),
        0 <= i < j < sorted.len(),
    ensures
        at_most(sorted[i], sorted[j]),
        at_most(sorted[j], sorted[i]) ==> places[i] < places[j],
    decreases j - i,
{
    let k = j - 1;
    assert(follows(less, items, places[k], places[k + 1]));
    assert(sorted[k] == items[places[k]]);
    assert(sorted[j] == items[places[j]]);
    assert(at_most(sorted[k], sorted[j]) || at_most(sorted[j], sorted[k]));
    assert(at_most(sorted[k], sorted[j]));
    if i < k {
        law_sort_is_stable(less, at_most, items, sorted, places, i, k);
        if at_most(sorted[j], sorted[i]) {
            assert(at_most(sorted[j], sorted[k]));
            assert(at_most(sorted[k], sorted[i]));
        }
    }
}

/// Whether a comparison may say that one value is less than another.
pub open spec fn less_by<T, E, F: Fn(&T, &T) -> Result<std::cmp::Ordering, E>>(order: &F, a: T, b: T) -> bool {
    order.ensures((&a, &b), Ok::<std::cmp::Ordering, E>(std::cmp::Ordering::Less))
}

/// Whether a comparison may say that one value is not less than another.
pub open spec fn not_less_by<T, E, F: Fn(&T, &T) -> Result<std::cmp::Ordering, E>>(order: &F, a: T, b: T) -> bool {
    order.ensures((&a, &b), Ok::<std::cmp::Ordering, E>(std::cmp::Ordering::Equal)) || order.ensures(
        (&a, &b),
        Ok::<std::cmp::Ordering, E>(std::cmp::Ordering::Greater),
    )
}

/// Whether a comparison of two values may fail with an error.
pub open spec fn fails_by<T, E, F: Fn(&T, &T) -> Result<std::cmp::Ordering, E>>(order: &F, a: T, b: T, e: E) -> bool {
    order.ensures((&a, &b), Err::<std::cmp::Ordering, E>(e))
}

/// Whether values are what a sort by a comparison may make of others.
pub open spec fn ordered_by<T, E, F: Fn(&T, &T) -> Result<std::cmp::Ordering, E>>(
    order: F,
    items: Seq<T>,
    sorted: Seq<T>,
    places: Seq<int>,
) -> bool {
    &&& sorted.len() == items.len()
    &&& places.len() == items.len()
    &&& forall|i: int| 0 <= i < places.len() ==> 0 <= (#[trigger] places[i]) < items.len()
    &&& forall|i: int, j: int| 0 <= i < j < places.len() ==> (#[trigger] places[i]) != (#[trigger] places[j])
    &&& forall|i: int| 0 <= i < sorted.len() ==> (#[trigger] sorted[i]) == items[places[i]]
    &&& forall|i: int|
        0 <= i < places.len() - 1 ==> less_by(&order, items[#[trigger] places[i]], items[places[i + 1]]) || (places[i]
            < places[i + 1] && not_less_by(&order, items[places[i + 1]], items[places[i]]))
}

/// Whether a comparison of two of the values may fail with an error.
pub open spec fn order_may_fail<T, E, F: Fn(&T, &T) -> Result<std::cmp::Ordering, E>>(
    order: F,
    items: Seq<T>,
    e: E,
) -> bool {
    exists|i: int, j: int|
        0 <= i < items.len() && 0 <= j < items.len() && i != j && fails_by(
            &order,
            #[trigger] items[i],
            #[trigger] items[j],
            e,
        )
}

/// What a comparison may say of the values at two places.
pub open spec fn may_say<T, E, F: Fn(&T, &T) -> Result<std::cmp::Ordering, E>>(
    order: &F,
    a: T,
    b: T,
    l: Result<bool, E>,
) -> bool {
    match l {
        Ok(true) => less_by(order, a, b),
        Ok(false) => not_less_by(order, a, b),
        Err(e) => fails_by(order, a, b, e),
    }
}

/// The value at a place.
pub open spec fn at<T>(items: Seq<T>, k: usize) -> T {
    items[k as int]
}

/// What a comparison may say of the values at two places: whether the first is
/// less, or an error.
pub open spec fn ordering<T, E, F: Fn(&T, &T) -> Result<std::cmp::Ordering, E>>(order: F, items: Seq<T>) -> Saying<E> {
    |x: usize, y: usize, l: Result<bool, E>|
        x < items.len() && y < items.len() && may_say(&order, at(items, x), at(items, y), l)
}

/// Stable-sort values by a comparison, and hand on the first error that it
/// raises. One that is no order leaves the values in some order.
pub fn try_sort_by<T, E, F: Fn(&T, &T) -> Result<std::cmp::Ordering, E>>(items: Vec<T>, order: F) -> (r: Result<
    Vec<T>,
    E,
>)
    requires
        forall|a: &T, b: &T| #[trigger] order.requires((a, b)),
    ensures
        match r {
            Ok(sorted) => exists|places: Seq<usize>| #[trigger]
                sorts(ordering(order, items@), items@.len(), Ok::<Seq<usize>, E>(places)) && ordered_by(
                    order,
                    items@,
                    sorted@,
                    ints(places),
                ),
            Err(e) => sorts(ordering(order, items@), items@.len(), Err::<Seq<usize>, E>(e)) && order_may_fail(
                order,
                items@,
                e,
            ),
        },
        items@.len() < 2 ==> (r matches Ok(sorted) && sorted@ == items@),
{
    let ghost all = items@;
    if items.len() < 2 {
        let ghost places = in_order(all.len());
        let r: Result<Vec<T>, E> = Ok(items);
        assert(r->Ok_0@ == all);
        assert(sorts(ordering(order, all), all.len(), Ok::<Seq<usize>, E>(places)));
        assert(ordered_by(order, all, r->Ok_0@, ints(places)));
        return r;
    }
    let less = |a: &T, b: &T| -> (l: Result<bool, E>)
        ensures
            match l {
                Ok(true) => less_by(&order, *a, *b),
                Ok(false) => not_less_by(&order, *a, *b),
                Err(e) => fails_by(&order, *a, *b, e),
            },
        {
            match order(a, b) {
                Ok(std::cmp::Ordering::Less) => Ok(true),
                Ok(_) => Ok(false),
                Err(e) => Err(e),
            }
        };
    let r = sort_by_less(items, &less);
    proof {
        let may = asked(less, all);
        let other = ordering(order, all);
        let same = |e: E| e;
        assert forall|x: usize, y: usize, l: Result<bool, E>| #[trigger] may(x, y, l) implies other(
            x,
            y,
            renamed(same, l),
        ) by {
            assert(renamed(same, l) == l);
        }
        match &r {
            Ok(sorted) => {
                let all_places = choose|places: Seq<usize>| #[trigger]
                    sorts(may, all.len(), Ok::<Seq<usize>, E>(places)) && arranged(less, all, sorted@, ints(places));
                lemma_sorts_retold(may, other, same, all.len(), Ok::<Seq<usize>, E>(all_places));
                let places = ints(all_places);
                assert forall|i: int| 0 <= i < places.len() - 1 implies less_by(
                    &order,
                    items@[#[trigger] places[i]],
                    items@[places[i + 1]],
                ) || (places[i] < places[i + 1] && not_less_by(&order, items@[places[i + 1]], items@[places[i]])) by {
                    assert(follows(less, items@, places[i], places[i + 1]));
                }
                assert(ordered_by(order, items@, sorted@, places));
            },
            Err(e) => {
                lemma_sorts_retold(may, other, same, all.len(), Err::<Seq<usize>, E>(*e));
                let (i, j) = choose|i: int, j: int|
                    0 <= i < items@.len() && 0 <= j < items@.len() && i != j && less.ensures(
                        (&#[trigger] items@[i], &#[trigger] items@[j]),
                        Err::<bool, E>(*e),
                    );
                assert(fails_by(&order, items@[i], items@[j], *e));
            },
        }
    }
    r
}

} // verus!
