//! Arrays: `$count`, `$append`, `$reverse`, `$shuffle`, `$distinct`,
//! `$flatten` and `$zip`.
use vstd::prelude::*;

use crate::error::{fail, out, JsonataResult};
use crate::number::Number;
use crate::value::{clone_all, equal_vals, number_in, vals, Val, Value};

verus! {

/// The elements of an array; anything else is the one element of its own.
pub open spec fn elements(v: Val) -> Seq<Val> {
    match v {
        Val::Array(a) => a,
        _ => seq![v],
    }
}

fn to_elements(v: &Value) -> (r: Vec<Value>)
    ensures
        vals(r@) == elements(v@),
{
    match v {
        Value::Array(a) => clone_all(a),
        _ => {
            let mut r: Vec<Value> = Vec::new();
            let x = v.clone();
            r.push(x);
            assert(vals(r@) =~= seq![v@]);
            r
        },
    }
}

// ── $count ───────────────────────────────────────────────────────────────────

/// What `$count` gives.
pub open spec fn count(a: Seq<Val>) -> Result<Val, Seq<char>> {
    if a.len() != 1 {
        Err("T0410"@)
    } else {
        Ok(
            Val::Number(
                Number::of_int(
                    match a[0] {
                        Val::Undefined => 0,
                        _ => elements(a[0]).len() as int,
                    },
                ),
            ),
        )
    }
}

/// `$count(array)`: the number of elements.
pub fn fn_count(args: &[Value], _focus: &Value) -> (r: JsonataResult)
    ensures
        out(r) == count(vals(args@)),
{
    if args.len() == 0 {
        return fail("T0410", "$count: argument is required");
    }
    if args.len() > 1 {
        return fail("T0410", "$count: expects 1 argument");
    }
    assert(vals(args@)[0] == args@[0]@);
    match &args[0] {
        Value::Undefined => Ok(Value::Number(Number::from_usize(0))),
        Value::Array(a) => Ok(Value::Number(Number::from_usize(a.len()))),
        _ => Ok(Value::Number(Number::from_usize(1))),
    }
}

// ── $append ──────────────────────────────────────────────────────────────────

/// The most elements that `$append` makes an array of.
pub const MAX_APPEND_SIZE: usize = 10_000_000;

/// What `$append` gives.
pub open spec fn append(a: Seq<Val>) -> Result<Val, Seq<char>> {
    if a.len() < 2 {
        Err("T0410"@)
    } else if a[0] is Undefined {
        Ok(a[1])
    } else if a[1] is Undefined {
        Ok(a[0])
    } else if elements(a[0]).len() + elements(a[1]).len() > MAX_APPEND_SIZE {
        Err("D3010"@)
    } else {
        Ok(Val::Array(elements(a[0]) + elements(a[1])))
    }
}

fn element_count(v: &Value) -> (r: usize)
    ensures
        r == elements(v@).len(),
{
    match v {
        Value::Array(a) => a.len(),
        _ => 1,
    }
}

/// `$append(first, second)`: the elements of both.
pub fn fn_append(args: &[Value], _focus: &Value) -> (r: JsonataResult)
    ensures
        out(r) == append(vals(args@)),
{
    if args.len() < 2 {
        return fail("T0410", "$append: requires 2 arguments");
    }
    assert(vals(args@)[0] == args@[0]@);
    assert(vals(args@)[1] == args@[1]@);
    if args[0].is_undefined() {
        return Ok(args[1].clone());
    }
    if args[1].is_undefined() {
        return Ok(args[0].clone());
    }
    let m: u128 = element_count(&args[0]) as u128;
    let n: u128 = element_count(&args[1]) as u128;
    if m + n > MAX_APPEND_SIZE as u128 {
        return fail("D3010", "$append: result array exceeds maximum size of 10000000 elements");
    }
    let mut all = to_elements(&args[0]);
    let mut more = to_elements(&args[1]);
    let ghost first = all@;
    let ghost second = more@;
    all.append(&mut more);
    assert(vals(all@) =~= vals(first) + vals(second));
    Ok(Value::Array(all))
}

// ── $reverse ─────────────────────────────────────────────────────────────────

/// What `$reverse` gives.
pub open spec fn reverse(a: Seq<Val>) -> Result<Val, Seq<char>> {
    if a.len() == 0 {
        Err("T0410"@)
    } else if a[0] is Undefined {
        Ok(Val::Undefined)
    } else {
        Ok(Val::Array(elements(a[0]).reverse()))
    }
}

/// `$reverse(array)`: the elements from last to first.
pub fn fn_reverse(args: &[Value], _focus: &Value) -> (r: JsonataResult)
    ensures
        out(r) == reverse(vals(args@)),
{
    if args.len() == 0 {
        return fail("T0410", "$reverse: argument is required");
    }
    assert(vals(args@)[0] == args@[0]@);
    if args[0].is_undefined() {
        return Ok(Value::Undefined);
    }
    let mut rest = to_elements(&args[0]);
    let ghost all = vals(rest@);
    let mut r: Vec<Value> = Vec::new();
    while rest.len() > 0
        invariant
            rest@.len() + r@.len() == all.len(),
            vals(rest@) == all.take(rest@.len() as int),
            vals(r@) == all.skip(rest@.len() as int).reverse(),
        decreases rest.len(),
    {
        let ghost n = rest@.len() as int;
        let ghost before = rest@;
        let ghost so_far = r@;
        let x = rest.remove(rest.len() - 1);
        assert(all[n - 1] == vals(before)[n - 1]);
        assert(vals(rest@) =~= vals(before).take(n - 1));
        assert(all.take(n).take(n - 1) =~= all.take(n - 1));
        r.push(x);
        assert(vals(r@) =~= vals(so_far).push(x@));
        assert(all.skip(n - 1).reverse() =~= all.skip(n).reverse().push(all[n - 1]));
    }
    assert(all.skip(0) =~= all);
    Ok(Value::Array(r))
}

/// Reversing an array twice gives it back.
pub proof fn law_reverse_twice(s: Seq<Val>)
    ensures
        reverse(seq![Val::Array(s)]) == Ok::<Val, Seq<char>>(Val::Array(s.reverse())),
        reverse(seq![Val::Array(s.reverse())]) == Ok::<Val, Seq<char>>(Val::Array(s)),
{
    assert(s.reverse().reverse() =~= s);
}

// ── $shuffle ─────────────────────────────────────────────────────────────────

/// A sequence with the elements at two places exchanged.
pub open spec fn swapped<T>(s: Seq<T>, i: int, j: int) -> Seq<T> {
    s.update(i, s[j]).update(j, s[i])
}

/// A sequence shuffled from place `i` down: each place is exchanged with the
/// one that was picked for it.
pub open spec fn shuffled<T>(s: Seq<T>, picks: Seq<usize>, i: int) -> Seq<T>
    decreases i,
{
    if i <= 0 {
        s
    } else {
        shuffled(swapped(s, i, picks[i - 1] as int), picks, i - 1)
    }
}

/// Whether there is a pick for each place but the first, at or below it.
pub open spec fn picks_for(picks: Seq<usize>, n: nat) -> bool {
    picks.len() + 1 >= n && forall|k: int| 0 <= k < picks.len() ==> (#[trigger] picks[k]) <= k + 1
}

proof fn lemma_swap_permutes<T>(s: Seq<T>, i: int, j: int)
    requires
        0 <= j <= i < s.len(),
    ensures
        swapped(s, i, j).to_multiset() == s.to_multiset(),
{
    let a = s.take(j);
    let rest = s.skip(i + 1);
    if i == j {
        assert(swapped(s, i, j) =~= s);
    } else {
        let m = s.subrange(j + 1, i);
        let x = s[j];
        let y = s[i];
        assert(s =~= a + (seq![x] + (m + (seq![y] + rest))));
        assert(swapped(s, i, j) =~= a + (seq![y] + (m + (seq![x] + rest))));
        vstd::seq_lib::lemma_multiset_commutative(seq![y], rest);
        vstd::seq_lib::lemma_multiset_commutative(seq![x], rest);
        vstd::seq_lib::lemma_multiset_commutative(m, seq![y] + rest);
        vstd::seq_lib::lemma_multiset_commutative(m, seq![x] + rest);
        vstd::seq_lib::lemma_multiset_commutative(seq![x], m + (seq![y] + rest));
        vstd::seq_lib::lemma_multiset_commutative(seq![y], m + (seq![x] + rest));
        vstd::seq_lib::lemma_multiset_commutative(a, seq![x] + (m + (seq![y] + rest)));
        vstd::seq_lib::lemma_multiset_commutative(a, seq![y] + (m + (seq![x] + rest)));
        assert(swapped(s, i, j).to_multiset() =~= s.to_multiset());
    }
}

/// Shuffling an array keeps its elements: only their order changes.
pub proof fn law_shuffle_permutes<T>(s: Seq<T>, picks: Seq<usize>, i: int)
    requires
        0 <= i,
        i < s.len() || s.len() == 0 && i == 0,
        picks_for(picks, s.len()),
    ensures
        shuffled(s, picks, i).to_multiset() == s.to_multiset(),
    decreases i,
{
    if i > 0 {
        lemma_swap_permutes(s, i, picks[i - 1] as int);
        law_shuffle_permutes(swapped(s, i, picks[i - 1] as int), picks, i - 1);
    }
}

/// Calls `fastrand::usize` for a place from the first up to and with `last`.
/// Nothing is known of which one it is.
#[verifier::external_body]
fn random_index(last: usize) -> (r: usize)
    ensures
        r <= last,
{
    fastrand::usize(..=last)
}

/// The elements of a list, shuffled by what was picked for each place but the
/// first.
pub fn shuffle_with(items: Vec<Value>, picks: &[usize]) -> (r: Vec<Value>)
    requires
        picks_for(picks@, items@.len()),
    ensures
        vals(r@) == shuffled(vals(items@), picks@, items@.len() - 1),
{
    let ghost all = vals(items@);
    let mut r = items;
    let mut i: usize = if r.len() == 0 {
        0
    } else {
        r.len() - 1
    };
    while i > 0
        invariant
            r@.len() == all.len(),
            i == 0 || i < all.len(),
            picks_for(picks@, all.len()),
            shuffled(all, picks@, all.len() - 1) == shuffled(vals(r@), picks@, i as int),
        decreases i,
    {
        let j: usize = picks[i - 1];
        let ghost before = vals(r@);
        assert(before[i as int] == r@[i as int]@ && before[j as int] == r@[j as int]@);
        let x = r[i].clone();
        let y = r[j].clone();
        r.set(i, y);
        r.set(j, x);
        assert(vals(r@) =~= swapped(before, i as int, j as int));
        i = i - 1;
    }
    r
}

/// Whether a result is that of shuffling by some picks.
pub open spec fn some_shuffle(s: Seq<Val>, r: Result<Val, Seq<char>>) -> bool {
    exists|picks: Seq<usize>| #[trigger]
        picks_for(picks, s.len()) && r == Ok::<Val, Seq<char>>(Val::Array(shuffled(s, picks, s.len() - 1)))
}

/// `$shuffle(array)`: the elements in an order that chance picks.
pub fn fn_shuffle(args: &[Value], _focus: &Value) -> (r: JsonataResult)
    ensures
        args@.len() == 0 ==> out(r) == Err::<Val, Seq<char>>("T0410"@),
        args@.len() > 0 && args@[0]@ is Undefined ==> out(r) == Ok::<Val, Seq<char>>(Val::Undefined),
        args@.len() > 0 && !(args@[0]@ is Undefined) ==> some_shuffle(elements(args@[0]@), out(r)),
{
    if args.len() == 0 {
        return fail("T0410", "$shuffle: argument is required");
    }
    if args[0].is_undefined() {
        return Ok(Value::Undefined);
    }
    let items = to_elements(&args[0]);
    let ghost all = vals(items@);
    let n: usize = items.len();
    let mut picks: Vec<usize> = Vec::new();
    let mut i: usize = 1;
    while i < n
        invariant
            1 <= i,
            i <= n || n == 0,
            n > 0 ==> picks@.len() == i - 1,
            n == 0 ==> picks@.len() == 0,
            forall|k: int| 0 <= k < picks@.len() ==> (#[trigger] picks@[k]) <= k + 1,
        decreases n - i,
    {
        picks.push(random_index(i));
        i = i + 1;
    }
    assert(picks_for(picks@, all.len()));
    let r = shuffle_with(items, picks.as_slice());
    Ok(Value::Array(r))
}

// ── $distinct ────────────────────────────────────────────────────────────────

/// Whether one of the values equals another.
pub open spec fn holds_equal(s: Seq<Val>, v: Val) -> bool {
    exists|i: int| 0 <= i < s.len() && equal_vals(#[trigger] s[i], v)
}

/// The first of each group of equal values, in order.
pub open spec fn firsts(s: Seq<Val>) -> Seq<Val>
    decreases s.len(),
{
    if s.len() == 0 {
        Seq::empty()
    } else {
        let d = firsts(s.drop_last());
        if holds_equal(d, s.last()) {
            d
        } else {
            d.push(s.last())
        }
    }
}

/// What `$distinct` gives.
pub open spec fn distinct(a: Seq<Val>) -> Result<Val, Seq<char>> {
    if a.len() == 0 {
        Err("T0410"@)
    } else {
        match a[0] {
            Val::Array(s) => Ok(Val::Array(firsts(s))),
            v => Ok(v),
        }
    }
}

fn has_equal(s: &Vec<Value>, v: &Value) -> (r: bool)
    ensures
        r == holds_equal(vals(s@), v@),
{
    let mut i: usize = 0;
    while i < s.len()
        invariant
            i <= s.len(),
            forall|k: int| 0 <= k < i ==> !equal_vals(#[trigger] vals(s@)[k], v@),
        decreases s.len() - i,
    {
        assert(vals(s@)[i as int] == s@[i as int]@);
        if s[i].deep_equal(v) {
            return true;
        }
        i = i + 1;
    }
    false
}

/// `$distinct(array)`: the array without the repetitions of its values.
pub fn fn_distinct(args: &[Value], _focus: &Value) -> (r: JsonataResult)
    ensures
        out(r) == distinct(vals(args@)),
{
    if args.len() == 0 {
        return fail("T0410", "$distinct: argument is required");
    }
    assert(vals(args@)[0] == args@[0]@);
    match &args[0] {
        Value::Array(a) => {
            let ghost all = vals(a@);
            let mut r: Vec<Value> = Vec::new();
            let mut i: usize = 0;
            assert(all.take(0) =~= Seq::empty());
            assert(vals(r@) =~= Seq::empty());
            while i < a.len()
                invariant
                    i <= a.len(),
                    all == vals(a@),
                    vals(r@) == firsts(all.take(i as int)),
                decreases a.len() - i,
            {
                assert(all.take(i + 1).drop_last() =~= all.take(i as int));
                assert(all[i as int] == a@[i as int]@);
                if !has_equal(&r, &a[i]) {
                    let ghost before = r@;
                    let x = a[i].clone();
                    r.push(x);
                    assert(vals(r@) =~= vals(before).push(x@));
                }
                i = i + 1;
            }
            assert(all.take(i as int) =~= all);
            Ok(Value::Array(r))
        },
        v => Ok(v.clone()),
    }
}

/// No two values that `$distinct` leaves are equal.
pub proof fn law_distinct_leaves_no_equals(s: Seq<Val>, i: int, j: int)
    requires
        0 <= i < j < firsts(s).len(),
    ensures
        !equal_vals(firsts(s)[i], firsts(s)[j]),
    decreases s.len(),
{
    let d = firsts(s.drop_last());
    if j < d.len() {
        law_distinct_leaves_no_equals(s.drop_last(), i, j);
    } else {
        assert(firsts(s)[i] == d[i]);
    }
}

/// Every value is there still, or one that came before it and equals it.
pub proof fn law_distinct_loses_nothing(s: Seq<Val>, k: int)
    requires
        0 <= k < s.len(),
    ensures
        holds_equal(firsts(s), s[k]) || firsts(s).contains(s[k]),
    decreases s.len(),
{
    let d = firsts(s.drop_last());
    if k < s.len() - 1 {
        law_distinct_loses_nothing(s.drop_last(), k);
        assert(s.drop_last()[k] == s[k]);
        if holds_equal(d, s[k]) {
            let i = choose|i: int| 0 <= i < d.len() && equal_vals(#[trigger] d[i], s[k]);
            assert(firsts(s)[i] == d[i]);
        } else {
            let i = choose|i: int| 0 <= i < d.len() && d[i] == s[k];
            assert(firsts(s)[i] == d[i]);
        }
    } else if !holds_equal(d, s.last()) {
        assert(firsts(s)[d.len() as int] == s[k]);
    }
}

/// Taking the distinct values of distinct values changes nothing.
pub proof fn law_distinct_twice(s: Seq<Val>)
    ensures
        firsts(firsts(s)) == firsts(s),
    decreases s.len(),
{
    if s.len() > 0 {
        let d = firsts(s.drop_last());
        law_distinct_twice(s.drop_last());
        if !holds_equal(d, s.last()) {
            assert(d.push(s.last()).drop_last() =~= d);
        }
    }
}

// ── $flatten ─────────────────────────────────────────────────────────────────

/// Values with the arrays among them replaced by their elements, to a depth.
pub open spec fn flattened(s: Seq<Val>, depth: int) -> Seq<Val>
    decreases depth, s.len(),
{
    if s.len() == 0 {
        Seq::empty()
    } else {
        let before = flattened(s.drop_last(), depth);
        match s.last() {
            Val::Array(inner) if depth > 0 => before + flattened(inner, depth - 1),
            v => before.push(v),
        }
    }
}

/// What `$flatten` gives.
pub open spec fn flatten(a: Seq<Val>) -> Result<Val, Seq<char>> {
    if a.len() == 0 {
        Err("T0410"@)
    } else {
        match a[0] {
            Val::Array(s) => {
                let depth = if a.len() > 1 && number_in(a[1]) is Some {
                    number_in(a[1])->0.saturated(0, usize::MAX as int)
                } else {
                    usize::MAX as int
                };
                Ok(Val::Array(flattened(s, depth)))
            },
            v => Ok(v),
        }
    }
}

/// The values of a list with the arrays among them replaced by their
/// elements, to a depth.
pub fn flatten_recursive(arr: &[Value], depth: usize) -> (r: Vec<Value>)
    ensures
        vals(r@) == flattened(vals(arr@), depth as int),
    decreases depth,
{
    let ghost all = vals(arr@);
    let mut r: Vec<Value> = Vec::new();
    let mut i: usize = 0;
    assert(all.take(0) =~= Seq::empty());
    assert(vals(r@) =~= Seq::empty());
    while i < arr.len()
        invariant
            i <= arr.len(),
            all == vals(arr@),
            vals(r@) == flattened(all.take(i as int), depth as int),
        decreases arr.len() - i,
    {
        assert(all.take(i + 1).drop_last() =~= all.take(i as int));
        assert(all[i as int] == arr@[i as int]@);
        let ghost before = r@;
        match &arr[i] {
            Value::Array(inner) if depth > 0 => {
                let mut more = flatten_recursive(inner.as_slice(), depth - 1);
                let ghost m = more@;
                r.append(&mut more);
                assert(vals(r@) =~= vals(before) + vals(m));
            },
            v => {
                let x = v.clone();
                r.push(x);
                assert(vals(r@) =~= vals(before).push(x@));
            },
        }
        i = i + 1;
    }
    assert(all.take(i as int) =~= all);
    r
}

/// `$flatten(array, depth)`: the array with nested arrays spread out.
pub fn fn_flatten(args: &[Value], _focus: &Value) -> (r: JsonataResult)
    ensures
        out(r) == flatten(vals(args@)),
{
    if args.len() == 0 {
        return fail("T0410", "$flatten: argument is required");
    }
    assert(vals(args@)[0] == args@[0]@);
    match &args[0] {
        Value::Array(a) => {
            let mut depth: usize = usize::MAX;
            if args.len() > 1 {
                assert(vals(args@)[1] == args@[1]@);
                match args[1].as_number() {
                    Some(n) => {
                        depth = n.to_usize();
                    },
                    None => {},
                }
            }
            Ok(Value::Array(flatten_recursive(a.as_slice(), depth)))
        },
        v => Ok(v.clone()),
    }
}

// ── $zip ─────────────────────────────────────────────────────────────────────

/// The length of the shortest of the arguments, as arrays.
pub open spec fn shortest(a: Seq<Val>) -> nat
    decreases a.len(),
{
    if a.len() == 0 {
        0
    } else if a.len() == 1 {
        elements(a[0]).len()
    } else {
        let m = shortest(a.drop_last());
        let n = elements(a.last()).len();
        if n < m {
            n
        } else {
            m
        }
    }
}

/// The elements at a place of each of the arguments.
pub open spec fn row(a: Seq<Val>, i: int) -> Val {
    Val::Array(Seq::new(a.len(), |k: int| elements(a[k])[i]))
}

/// What `$zip` gives.
pub open spec fn zip(a: Seq<Val>) -> Result<Val, Seq<char>> {
    if a.len() == 0 {
        Err("T0410"@)
    } else if exists|k: int| 0 <= k < a.len() && (#[trigger] a[k]) is Undefined {
        Ok(Val::Array(Seq::empty()))
    } else {
        Ok(Val::Array(Seq::new(shortest(a), |i: int| row(a, i))))
    }
}

proof fn lemma_shortest(a: Seq<Val>, k: int)
    requires
        0 <= k < a.len(),
    ensures
        shortest(a) <= elements(a[k]).len(),
    decreases a.len(),
{
    if a.len() > 1 && k < a.len() - 1 {
        lemma_shortest(a.drop_last(), k);
    }
}

fn find_shortest(args: &[Value]) -> (r: usize)
    requires
        args@.len() > 0,
    ensures
        r == shortest(vals(args@)),
{
    let ghost a = vals(args@);
    assert(a[0] == args@[0]@);
    let mut m: usize = element_count(&args[0]);
    let mut k: usize = 1;
    assert(a.take(1)[0] == a[0]);
    while k < args.len()
        invariant
            1 <= k <= args.len(),
            a == vals(args@),
            m == shortest(a.take(k as int)),
        decreases args.len() - k,
    {
        assert(a.take(k + 1).drop_last() =~= a.take(k as int));
        assert(a[k as int] == args@[k as int]@);
        let n: usize = element_count(&args[k]);
        if n < m {
            m = n;
        }
        k = k + 1;
    }
    assert(a.take(k as int) =~= a);
    m
}

fn make_row(args: &[Value], i: usize) -> (r: Value)
    requires
        i < shortest(vals(args@)),
    ensures
        r@ == row(vals(args@), i as int),
{
    let ghost a = vals(args@);
    let mut r: Vec<Value> = Vec::new();
    let mut k: usize = 0;
    while k < args.len()
        invariant
            k <= args.len(),
            a == vals(args@),
            i < shortest(a),
            r@.len() == k,
            forall|q: int| 0 <= q < k ==> vals(r@)[q] == elements(#[trigger] a[q])[i as int],
        decreases args.len() - k,
    {
        proof {
            lemma_shortest(a, k as int);
        }
        assert(a[k as int] == args@[k as int]@);
        let ghost before = r@;
        let x = match &args[k] {
            Value::Array(e) => {
                assert(vals(e@)[i as int] == e@[i as int]@);
                e[i].clone()
            },
            v => v.clone(),
        };
        r.push(x);
        assert(vals(r@) =~= vals(before).push(x@));
        k = k + 1;
    }
    assert(vals(r@) =~= Seq::new(a.len(), |k: int| elements(a[k])[i as int]));
    Value::Array(r)
}

/// `$zip(first, ...)`: the first elements of all, then the second, and so on.
pub fn fn_zip(args: &[Value], _focus: &Value) -> (r: JsonataResult)
    ensures
        out(r) == zip(vals(args@)),
{
    if args.len() == 0 {
        return fail("T0410", "$zip: requires at least 1 argument");
    }
    let ghost a = vals(args@);
    let mut k: usize = 0;
    while k < args.len()
        invariant
            k <= args.len(),
            a == vals(args@),
            a.len() > 0,
            forall|q: int| 0 <= q < k ==> !((#[trigger] a[q]) is Undefined),
        decreases args.len() - k,
    {
        assert(a[k as int] == args@[k as int]@);
        if args[k].is_undefined() {
            let r: Vec<Value> = Vec::new();
            assert(vals(r@) =~= Seq::empty());
            return Ok(Value::Array(r));
        }
        k = k + 1;
    }
    let n: usize = find_shortest(args);
    let mut r: Vec<Value> = Vec::new();
    let mut i: usize = 0;
    while i < n
        invariant
            i <= n,
            a == vals(args@),
            n == shortest(a),
            r@.len() == i,
            forall|q: int| 0 <= q < i ==> (#[trigger] vals(r@)[q]) == row(a, q),
        decreases n - i,
    {
        let ghost before = r@;
        let x = make_row(args, i);
        r.push(x);
        assert(vals(r@) =~= vals(before).push(x@));
        i = i + 1;
    }
    assert(vals(r@) =~= Seq::new(shortest(a), |i: int| row(a, i)));
    Ok(Value::Array(r))
}

} // verus!
