//! Objects: `$keys`, `$values`, `$spread`, `$merge`, `$lookup` and `$error`.
use vstd::prelude::*;

use crate::error::{fail, out, JsonataResult};
use crate::text::{chars_of, is_text};
use crate::value::{
    collapsed, distinct_keys, law_insert_keeps_keys_distinct, law_insert_then_get, member, member_at, vals, with_member,
    ObjectMap, Sequence, Val, Value,
};

verus! {

// ── $keys ────────────────────────────────────────────────────────────────────

/// The keys of an object, in order.
pub open spec fn keys_of(o: Seq<(Seq<char>, Val)>) -> Seq<Val> {
    o.map_values(|p: (Seq<char>, Val)| Val::String(p.0))
}

/// Keys with those of an object's first members added, except such as are
/// there already.
pub open spec fn with_keys(known: Seq<Val>, o: Seq<(Seq<char>, Val)>) -> Seq<Val>
    decreases o.len(),
{
    if o.len() == 0 {
        known
    } else {
        let before = with_keys(known, o.drop_last());
        if before.contains(Val::String(o.last().0)) {
            before
        } else {
            before.push(Val::String(o.last().0))
        }
    }
}

/// The keys of all the objects among values, each at its first place.
pub open spec fn all_keys(s: Seq<Val>) -> Seq<Val>
    decreases s.len(),
{
    if s.len() == 0 {
        Seq::empty()
    } else {
        match s.last() {
            Val::Object(o) => with_keys(all_keys(s.drop_last()), o),
            _ => all_keys(s.drop_last()),
        }
    }
}

/// What `$keys` gives.
pub open spec fn keys(a: Seq<Val>) -> Result<Val, Seq<char>> {
    if a.len() == 0 {
        Err("T0410"@)
    } else {
        match a[0] {
            Val::Object(o) => Ok(collapsed(keys_of(o))),
            Val::Array(s) => Ok(collapsed(all_keys(s))),
            _ => Ok(Val::Undefined),
        }
    }
}

fn collect_keys(o: &ObjectMap) -> (r: Vec<Value>)
    ensures
        vals(r@) == keys_of(o@),
{
    let mut r: Vec<Value> = Vec::new();
    let mut i: usize = 0;
    while i < o.entries.len()
        invariant
            i <= o.entries.len(),
            vals(r@) =~= keys_of(o@).take(i as int),
        decreases o.entries.len() - i,
    {
        assert(o@[i as int].0 == o.entries@[i as int].key@);
        let ghost before = r@;
        let x = Value::String(o.entries[i].key.clone());
        r.push(x);
        assert(vals(r@) =~= vals(before).push(x@));
        i = i + 1;
    }
    assert(keys_of(o@).take(i as int) =~= keys_of(o@));
    r
}

fn has_key(known: &Vec<Value>, key: &str) -> (r: bool)
    ensures
        r == vals(known@).contains(Val::String(key@)),
{
    let k = chars_of(key);
    let mut i: usize = 0;
    while i < known.len()
        invariant
            i <= known.len(),
            k@ == key@,
            forall|q: int| 0 <= q < i ==> (#[trigger] vals(known@)[q]) != Val::String(key@),
        decreases known.len() - i,
    {
        assert(vals(known@)[i as int] == known@[i as int]@);
        match &known[i] {
            Value::String(s) => {
                if is_text(k.as_slice(), s.as_str()) {
                    return true;
                }
            },
            _ => {},
        }
        i = i + 1;
    }
    false
}

fn add_keys(known: Vec<Value>, o: &ObjectMap) -> (r: Vec<Value>)
    ensures
        vals(r@) == with_keys(vals(known@), o@),
{
    let ghost all = o@;
    let ghost start = vals(known@);
    let mut r = known;
    let mut i: usize = 0;
    assert(all.take(0) =~= Seq::empty());
    while i < o.entries.len()
        invariant
            i <= o.entries.len(),
            all == o@,
            vals(r@) == with_keys(start, all.take(i as int)),
        decreases o.entries.len() - i,
    {
        assert(all.take(i + 1).drop_last() =~= all.take(i as int));
        assert(all[i as int].0 == o.entries@[i as int].key@);
        if !has_key(&r, o.entries[i].key.as_str()) {
            let ghost before = r@;
            let x = Value::String(o.entries[i].key.clone());
            r.push(x);
            assert(vals(r@) =~= vals(before).push(x@));
        }
        i = i + 1;
    }
    assert(all.take(i as int) =~= all);
    r
}

/// `$keys(object)`: the keys of an object, or of all the objects of an array.
pub fn fn_keys(args: &[Value], _focus: &Value) -> (r: JsonataResult)
    ensures
        out(r) == keys(vals(args@)),
{
    if args.len() == 0 {
        return fail("T0410", "$keys: argument is required");
    }
    assert(vals(args@)[0] == args@[0]@);
    match &args[0] {
        Value::Object(o) => Ok(Sequence::with_items(collect_keys(o)).into_value()),
        Value::Array(a) => {
            let ghost all = vals(a@);
            let mut known: Vec<Value> = Vec::new();
            let mut i: usize = 0;
            assert(all.take(0) =~= Seq::empty());
            assert(vals(known@) =~= Seq::empty());
            while i < a.len()
                invariant
                    i <= a.len(),
                    all == vals(a@),
                    vals(known@) == all_keys(all.take(i as int)),
                decreases a.len() - i,
            {
                assert(all.take(i + 1).drop_last() =~= all.take(i as int));
                assert(all[i as int] == a@[i as int]@);
                match &a[i] {
                    Value::Object(o) => {
                        known = add_keys(known, o);
                    },
                    _ => {},
                }
                i = i + 1;
            }
            assert(all.take(i as int) =~= all);
            Ok(Sequence::with_items(known).into_value())
        },
        _ => Ok(Value::Undefined),
    }
}

// ── $values ──────────────────────────────────────────────────────────────────

/// The values of an object, in the order of their keys.
pub open spec fn values_of(o: Seq<(Seq<char>, Val)>) -> Seq<Val> {
    o.map_values(|p: (Seq<char>, Val)| p.1)
}

/// The values of all the objects among values.
pub open spec fn all_values(s: Seq<Val>) -> Seq<Val>
    decreases s.len(),
{
    if s.len() == 0 {
        Seq::empty()
    } else {
        match s.last() {
            Val::Object(o) => all_values(s.drop_last()) + values_of(o),
            _ => all_values(s.drop_last()),
        }
    }
}

/// What `$values` gives.
pub open spec fn values(a: Seq<Val>) -> Result<Val, Seq<char>> {
    if a.len() == 0 {
        Err("T0410"@)
    } else {
        match a[0] {
            Val::Object(o) => Ok(Val::Array(values_of(o))),
            Val::Array(s) => if all_values(s).len() == 0 {
                Ok(Val::Undefined)
            } else {
                Ok(Val::Array(all_values(s)))
            },
            _ => Ok(Val::Undefined),
        }
    }
}

fn collect_values(o: &ObjectMap) -> (r: Vec<Value>)
    ensures
        vals(r@) == values_of(o@),
{
    let mut r: Vec<Value> = Vec::new();
    let mut i: usize = 0;
    while i < o.entries.len()
        invariant
            i <= o.entries.len(),
            vals(r@) =~= values_of(o@).take(i as int),
        decreases o.entries.len() - i,
    {
        assert(o@[i as int].1 == o.entries@[i as int].value@);
        let ghost before = r@;
        let x = o.entries[i].value.clone();
        r.push(x);
        assert(vals(r@) =~= vals(before).push(x@));
        i = i + 1;
    }
    assert(values_of(o@).take(i as int) =~= values_of(o@));
    r
}

/// `$values(object)`: the values of an object, or of all the objects of an
/// array.
pub fn fn_values(args: &[Value], _focus: &Value) -> (r: JsonataResult)
    ensures
        out(r) == values(vals(args@)),
{
    if args.len() == 0 {
        return fail("T0410", "$values: argument is required");
    }
    assert(vals(args@)[0] == args@[0]@);
    match &args[0] {
        Value::Object(o) => Ok(Value::Array(collect_values(o))),
        Value::Array(a) => {
            let ghost all = vals(a@);
            let mut r: Vec<Value> = Vec::new();
            let mut i: usize = 0;
            assert(all.take(0) =~= Seq::empty());
            assert(vals(r@) =~= Seq::empty());
            while i < a.len()
                invariant
                    i <= a.len(),
                    all == vals(a@),
                    vals(r@) == all_values(all.take(i as int)),
                decreases a.len() - i,
            {
                assert(all.take(i + 1).drop_last() =~= all.take(i as int));
                assert(all[i as int] == a@[i as int]@);
                match &a[i] {
                    Value::Object(o) => {
                        let ghost before = r@;
                        let mut more = collect_values(o);
                        let ghost m = more@;
                        r.append(&mut more);
                        assert(vals(r@) =~= vals(before) + vals(m));
                    },
                    _ => {},
                }
                i = i + 1;
            }
            assert(all.take(i as int) =~= all);
            if r.len() == 0 {
                return Ok(Value::Undefined);
            }
            Ok(Value::Array(r))
        },
        _ => Ok(Value::Undefined),
    }
}

// ── $spread ──────────────────────────────────────────────────────────────────

/// The members of an object, each as an object of its own.
pub open spec fn singles(o: Seq<(Seq<char>, Val)>) -> Seq<Val> {
    o.map_values(|p: (Seq<char>, Val)| Val::Object(seq![p]))
}

/// Values with each object among them split into its members.
pub open spec fn spread_all(s: Seq<Val>) -> Seq<Val>
    decreases s.len(),
{
    if s.len() == 0 {
        Seq::empty()
    } else {
        match s.last() {
            Val::Object(o) => spread_all(s.drop_last()) + singles(o),
            v => spread_all(s.drop_last()).push(v),
        }
    }
}

/// What `$spread` gives.
pub open spec fn spread(a: Seq<Val>) -> Result<Val, Seq<char>> {
    if a.len() == 0 {
        Err("T0410"@)
    } else {
        match a[0] {
            Val::Object(o) => Ok(Val::Sequence(singles(o))),
            Val::Array(s) => Ok(Val::Array(spread_all(s))),
            v => Ok(v),
        }
    }
}

fn spread_one(o: &ObjectMap) -> (r: Vec<Value>)
    ensures
        vals(r@) == singles(o@),
{
    let mut r: Vec<Value> = Vec::new();
    let mut i: usize = 0;
    while i < o.entries.len()
        invariant
            i <= o.entries.len(),
            vals(r@) =~= singles(o@).take(i as int),
        decreases o.entries.len() - i,
    {
        assert(o@[i as int] == (o.entries@[i as int].key@, o.entries@[i as int].value@));
        let ghost before = r@;
        let mut m = ObjectMap::new();
        m.insert(o.entries[i].key.clone(), o.entries[i].value.clone());
        assert(m@ =~= seq![o@[i as int]]);
        let x = Value::Object(m);
        r.push(x);
        assert(vals(r@) =~= vals(before).push(x@));
        i = i + 1;
    }
    assert(singles(o@).take(i as int) =~= singles(o@));
    r
}

/// `$spread(object)`: the members of an object, each as an object of its own.
pub fn fn_spread(args: &[Value], _focus: &Value) -> (r: JsonataResult)
    ensures
        out(r) == spread(vals(args@)),
{
    if args.len() == 0 {
        return fail("T0410", "$spread: argument is required");
    }
    assert(vals(args@)[0] == args@[0]@);
    match &args[0] {
        Value::Object(o) => Ok(Value::Sequence(Sequence::with_items(spread_one(o)))),
        Value::Array(a) => {
            let ghost all = vals(a@);
            let mut r: Vec<Value> = Vec::new();
            let mut i: usize = 0;
            assert(all.take(0) =~= Seq::empty());
            assert(vals(r@) =~= Seq::empty());
            while i < a.len()
                invariant
                    i <= a.len(),
                    all == vals(a@),
                    vals(r@) == spread_all(all.take(i as int)),
                decreases a.len() - i,
            {
                assert(all.take(i + 1).drop_last() =~= all.take(i as int));
                assert(all[i as int] == a@[i as int]@);
                let ghost before = r@;
                match &a[i] {
                    Value::Object(o) => {
                        let mut more = spread_one(o);
                        let ghost m = more@;
                        r.append(&mut more);
                        assert(vals(r@) =~= vals(before) + vals(m));
                    },
                    v => {
                        let x = v.clone();
                        r.push(x);
                        assert(vals(r@) =~= vals(before).push(x@));
                    },
                }
                i = i + 1;
            }
            assert(all.take(i as int) =~= all);
            Ok(Value::Array(r))
        },
        v => Ok(v.clone()),
    }
}

// ── $merge ───────────────────────────────────────────────────────────────────

/// An object with the members of another set in it.
pub open spec fn absorbed(m: Seq<(Seq<char>, Val)>, o: Seq<(Seq<char>, Val)>) -> Seq<(Seq<char>, Val)>
    decreases o.len(),
{
    if o.len() == 0 {
        m
    } else {
        with_member(absorbed(m, o.drop_last()), o.last().0, o.last().1)
    }
}

/// The objects of a list merged into one, if there is nothing else in it.
pub open spec fn merged(s: Seq<Val>) -> Option<Seq<(Seq<char>, Val)>>
    decreases s.len(),
{
    if s.len() == 0 {
        Some(Seq::empty())
    } else {
        match (merged(s.drop_last()), s.last()) {
            (Some(m), Val::Object(o)) => Some(absorbed(m, o)),
            _ => None,
        }
    }
}

/// What `$merge` gives.
pub open spec fn merge(a: Seq<Val>) -> Result<Val, Seq<char>> {
    if a.len() == 0 {
        Err("T0410"@)
    } else {
        match a[0] {
            Val::Undefined => Ok(Val::Undefined),
            Val::Array(s) => match merged(s) {
                Some(m) => Ok(Val::Object(m)),
                None => Err("T0412"@),
            },
            Val::Object(o) => Ok(Val::Object(absorbed(Seq::empty(), o))),
            _ => Err("T0410"@),
        }
    }
}

fn merge_obj(m: ObjectMap, o: &ObjectMap) -> (r: ObjectMap)
    ensures
        r@ == absorbed(m@, o@),
{
    let ghost all = o@;
    let ghost start = m@;
    let mut r = m;
    let mut i: usize = 0;
    assert(all.take(0) =~= Seq::empty());
    while i < o.entries.len()
        invariant
            i <= o.entries.len(),
            all == o@,
            r@ == absorbed(start, all.take(i as int)),
        decreases o.entries.len() - i,
    {
        assert(all.take(i + 1).drop_last() =~= all.take(i as int));
        assert(all[i as int] == (o.entries@[i as int].key@, o.entries@[i as int].value@));
        r.insert(o.entries[i].key.clone(), o.entries[i].value.clone());
        i = i + 1;
    }
    assert(all.take(i as int) =~= all);
    r
}

proof fn lemma_not_merged(s: Seq<Val>, i: int)
    requires
        0 <= i <= s.len(),
        merged(s.take(i)) is None,
    ensures
        merged(s) is None,
    decreases s.len() - i,
{
    if i == s.len() {
        assert(s.take(i) =~= s);
    } else {
        assert(s.take(i + 1).drop_last() =~= s.take(i));
        lemma_not_merged(s, i + 1);
    }
}

/// `$merge(array)`: the objects of an array in one.
pub fn fn_merge(args: &[Value], _focus: &Value) -> (r: JsonataResult)
    ensures
        out(r) == merge(vals(args@)),
{
    if args.len() == 0 {
        return fail("T0410", "$merge: argument is required");
    }
    assert(vals(args@)[0] == args@[0]@);
    match &args[0] {
        Value::Undefined => Ok(Value::Undefined),
        Value::Array(a) => {
            let ghost all = vals(a@);
            let mut m = ObjectMap::new();
            let mut i: usize = 0;
            assert(all.take(0) =~= Seq::empty());
            while i < a.len()
                invariant
                    i <= a.len(),
                    all == vals(a@),
                    args@.len() > 0,
                    vals(args@)[0] == Val::Array(all),
                    merged(all.take(i as int)) == Some(m@),
                decreases a.len() - i,
            {
                assert(all.take(i + 1).drop_last() =~= all.take(i as int));
                assert(all[i as int] == a@[i as int]@);
                match &a[i] {
                    Value::Object(o) => {
                        m = merge_obj(m, o);
                    },
                    _ => {
                        proof {
                            lemma_not_merged(all, i + 1);
                        }
                        return fail("T0412", "$merge: array elements must be objects");
                    },
                }
                i = i + 1;
            }
            assert(all.take(i as int) =~= all);
            Ok(Value::Object(m))
        },
        Value::Object(o) => Ok(Value::Object(merge_obj(ObjectMap::new(), o))),
        _ => fail("T0410", "$merge: argument must be an array of objects"),
    }
}

/// Setting members keeps the keys distinct, whatever is set.
pub proof fn law_merge_keeps_keys_distinct(m: Seq<(Seq<char>, Val)>, o: Seq<(Seq<char>, Val)>)
    requires
        distinct_keys(m),
    ensures
        distinct_keys(absorbed(m, o)),
    decreases o.len(),
{
    if o.len() > 0 {
        law_merge_keeps_keys_distinct(m, o.drop_last());
        law_insert_keeps_keys_distinct(absorbed(m, o.drop_last()), o.last().0, o.last().1);
    }
}

proof fn lemma_member_prefix(o: Seq<(Seq<char>, Val)>, key: Seq<char>, from: int)
    requires
        o.len() > 0,
        0 <= from <= o.len() - 1,
    ensures
        match member_at(o.drop_last(), key, from) {
            Some(i) => member_at(o, key, from) == Some(i) && from <= i < o.len() - 1 && o[i].0 == key,
            None => member_at(o, key, from) == (if o.last().0 == key {
                Some(o.len() - 1)
            } else {
                None::<int>
            }),
        },
    decreases o.len() - from,
{
    if from < o.len() - 1 {
        assert(o.drop_last()[from] == o[from]);
        if o[from].0 != key {
            lemma_member_prefix(o, key, from + 1);
        }
    } else {
        assert(member_at(o, key, from + 1) is None);
    }
}

/// After a merge a key has the value of the later object, or else that of the
/// earlier one.
pub proof fn law_merge_later_wins(m: Seq<(Seq<char>, Val)>, o: Seq<(Seq<char>, Val)>, key: Seq<char>)
    requires
        distinct_keys(o),
    ensures
        member(absorbed(m, o), key) == (match member(o, key) {
            Some(v) => Some(v),
            None => member(m, key),
        }),
    decreases o.len(),
{
    if o.len() > 0 {
        let p = o.drop_last();
        law_merge_later_wins(m, p, key);
        law_insert_then_get(absorbed(m, p), o.last().0, o.last().1, key);
        lemma_member_prefix(o, key, 0);
        match member_at(p, key, 0) {
            Some(i) => {
                assert(o[i].0 == key);
                assert(o[o.len() - 1].0 != o[i].0);
            },
            None => {},
        }
    }
}

proof fn lemma_new_key(o: Seq<(Seq<char>, Val)>, n: int, from: int)
    requires
        distinct_keys(o),
        0 <= from <= n < o.len(),
    ensures
        member_at(o.take(n), o[n].0, from) is None,
    decreases n - from,
{
    if from < n {
        assert(o.take(n)[from] == o[from]);
        assert(o[from].0 != o[n].0);
        lemma_new_key(o, n, from + 1);
    }
}

proof fn lemma_merged_singles(o: Seq<(Seq<char>, Val)>, n: int)
    requires
        distinct_keys(o),
        0 <= n <= o.len(),
    ensures
        merged(singles(o).take(n)) == Some(o.take(n)),
    decreases n,
{
    if n == 0 {
        assert(singles(o).take(0) =~= Seq::empty());
        assert(o.take(0) =~= Seq::empty());
    } else {
        lemma_merged_singles(o, n - 1);
        let s = singles(o).take(n);
        assert(s.drop_last() =~= singles(o).take(n - 1));
        assert(s.last() == Val::Object(seq![o[n - 1]]));
        lemma_new_key(o, n - 1, 0);
        let m = o.take(n - 1);
        let one = seq![o[n - 1]];
        assert(one.drop_last() =~= Seq::empty());
        assert(absorbed(m, one.drop_last()) == m);
        assert(absorbed(m, one) == m.push(o[n - 1]));
        assert(o.take(n) =~= m.push(o[n - 1]));
    }
}

/// Merging what an object spreads into gives the object back.
pub proof fn law_merge_undoes_spread(o: Seq<(Seq<char>, Val)>)
    requires
        distinct_keys(o),
    ensures
        spread(seq![Val::Object(o)]) == Ok::<Val, Seq<char>>(Val::Sequence(singles(o))),
        merge(seq![Val::Array(singles(o))]) == Ok::<Val, Seq<char>>(Val::Object(o)),
{
    lemma_merged_singles(o, o.len() as int);
    assert(singles(o).take(o.len() as int) =~= singles(o));
    assert(o.take(o.len() as int) =~= o);
}

// ── $lookup ──────────────────────────────────────────────────────────────────

/// The values that the objects among values have for a key.
pub open spec fn found_in(s: Seq<Val>, key: Seq<char>) -> Seq<Val>
    decreases s.len(),
{
    if s.len() == 0 {
        Seq::empty()
    } else {
        let before = found_in(s.drop_last(), key);
        match s.last() {
            Val::Object(o) => match member(o, key) {
                Some(v) => before.push(v),
                None => before,
            },
            _ => before,
        }
    }
}

/// What `$lookup` gives.
pub open spec fn lookup(a: Seq<Val>) -> Result<Val, Seq<char>> {
    if a.len() < 2 {
        Err("T0410"@)
    } else if a[0] is Undefined {
        Ok(Val::Undefined)
    } else {
        match a[1] {
            Val::String(key) => match a[0] {
                Val::Object(o) => match member(o, key) {
                    Some(v) => Ok(v),
                    None => Ok(Val::Undefined),
                },
                Val::Array(s) => Ok(collapsed(found_in(s, key))),
                _ => Ok(Val::Undefined),
            },
            _ => Err("T0410"@),
        }
    }
}

/// `$lookup(object, key)`: the value for a key, in an object or in all the
/// objects of an array.
pub fn fn_lookup(args: &[Value], _focus: &Value) -> (r: JsonataResult)
    ensures
        out(r) == lookup(vals(args@)),
{
    if args.len() < 2 {
        return fail("T0410", "$lookup: requires 2 arguments");
    }
    assert(vals(args@)[0] == args@[0]@);
    assert(vals(args@)[1] == args@[1]@);
    if args[0].is_undefined() {
        return Ok(Value::Undefined);
    }
    let key = match &args[1] {
        Value::String(s) => s.as_str(),
        _ => {
            return fail("T0410", "$lookup: key must be a string");
        },
    };
    match &args[0] {
        Value::Object(o) => match o.get(key) {
            Some(v) => Ok(v.clone()),
            None => Ok(Value::Undefined),
        },
        Value::Array(a) => {
            let ghost all = vals(a@);
            let mut r: Vec<Value> = Vec::new();
            let mut i: usize = 0;
            assert(all.take(0) =~= Seq::empty());
            assert(vals(r@) =~= Seq::empty());
            while i < a.len()
                invariant
                    i <= a.len(),
                    all == vals(a@),
                    vals(r@) == found_in(all.take(i as int), key@),
                decreases a.len() - i,
            {
                assert(all.take(i + 1).drop_last() =~= all.take(i as int));
                assert(all[i as int] == a@[i as int]@);
                match &a[i] {
                    Value::Object(o) => match o.get(key) {
                        Some(v) => {
                            let ghost before = r@;
                            let x = v.clone();
                            r.push(x);
                            assert(vals(r@) =~= vals(before).push(x@));
                        },
                        None => {},
                    },
                    _ => {},
                }
                i = i + 1;
            }
            assert(all.take(i as int) =~= all);
            Ok(Sequence::with_items(r).into_value())
        },
        _ => Ok(Value::Undefined),
    }
}

/// Looking a key of an object up gives the value at the same place.
pub proof fn law_lookup_of_key(o: Seq<(Seq<char>, Val)>, i: int)
    requires
        distinct_keys(o),
        0 <= i < o.len(),
    ensures
        lookup(seq![Val::Object(o), keys_of(o)[i]]) == Ok::<Val, Seq<char>>(values_of(o)[i]),
{
    lemma_found_at(o, i, 0);
}

proof fn lemma_found_at(o: Seq<(Seq<char>, Val)>, i: int, from: int)
    requires
        distinct_keys(o),
        0 <= from <= i < o.len(),
    ensures
        member_at(o, o[i].0, from) == Some(i),
    decreases i - from,
{
    if from < i {
        assert(o[from].0 != o[i].0);
        lemma_found_at(o, i, from + 1);
    }
}

// ── $error ───────────────────────────────────────────────────────────────────

/// The code with which `$error` fails.
pub open spec fn error_code(a: Seq<Val>) -> Seq<char> {
    if a.len() == 0 {
        "D3137"@
    } else {
        match a[0] {
            Val::Undefined => "D3137"@,
            Val::String(_) => "D3137"@,
            _ => "T0410"@,
        }
    }
}

/// `$error(message)`: fail with the message.
pub fn fn_error(args: &[Value], _focus: &Value) -> (r: JsonataResult)
    ensures
        out(r) == Err::<Val, Seq<char>>(error_code(vals(args@))),
        args@.len() > 0 && args@[0]@ is String ==> r->Err_0.message@ == args@[0]@->String_0,
        args@.len() == 0 || args@[0]@ is Undefined ==> r->Err_0.message@ == "$error() function evaluated"@,
{
    if args.len() == 0 {
        return fail("D3137", "$error() function evaluated");
    }
    assert(vals(args@)[0] == args@[0]@);
    match &args[0] {
        Value::Undefined => fail("D3137", "$error() function evaluated"),
        Value::String(s) => fail("D3137", s.as_str()),
        _ => fail("T0410", "$error: argument must be a string"),
    }
}

} // verus!
