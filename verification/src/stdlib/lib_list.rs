//! The list functions of the standard library.
//!
//! Values are owned here: a function that changes a collection gives back the collection
//! as it is afterwards.
use vstd::prelude::*;

use crate::vm::error::RuntimeError;
use crate::vm::value::{same, same_entries_from, same_from, Value};

verus! {

// ===== Indexing ===== //

/// The index that `r` stands for in a list of `len` elements: from the end when negative.
pub open spec fn to_index(len: int, r: int) -> int {
    if r >= 0 { r } else { len + r }
}

/// Element `r` of `list`, counted from the end when `r` is negative.
pub fn list_index(list: Vec<Value>, r: i64) -> (res: Result<Value, RuntimeError>)
    ensures
        0 <= to_index(list@.len() as int, r as int) < list@.len() ==> res == Ok::<Value, RuntimeError>(
            list@[to_index(list@.len() as int, r as int)],
        ),
        !(0 <= to_index(list@.len() as int, r as int) < list@.len()) ==> res == Err::<Value, RuntimeError>(
            RuntimeError::ValueErrorIndexOutOfBounds(r, list@.len() as usize),
        ),
{
    let len = list.len();
    let index: i128 = if r < 0 { len as i128 + r as i128 } else { r as i128 };
    if 0 <= index && index < len as i128 {
        let mut list = list;
        Ok(list.swap_remove(index as usize))
    } else {
        Err(RuntimeError::ValueErrorIndexOutOfBounds(r, len))
    }
}

// ===== Slicing ===== //

/// The indices `start`, `start + step`, ... up to `stop` (inclusive) that lie in `0..len`.
pub open spec fn slice_up(start: int, stop: int, step: int, len: int) -> Seq<int>
    decreases if start > stop { 0 } else { stop - start + 1 },
{
    if step <= 0 || start > stop {
        seq![]
    } else {
        (if 0 <= start < len { seq![start] } else { seq![] }) + slice_up(start + step, stop, step, len)
    }
}

/// The indices `start`, `start - step`, ... down to `stop` (exclusive) that lie in `0..len`.
pub open spec fn slice_down(start: int, stop: int, step: int, len: int) -> Seq<int>
    decreases if start <= stop { 0 } else { start - stop },
{
    if step <= 0 || start <= stop {
        seq![]
    } else {
        (if 0 <= start < len { seq![start] } else { seq![] }) + slice_down(start - step, stop, step, len)
    }
}

/// The indices that `list[low:high:step]` takes from a list of `len` elements: a positive
/// step goes from `low` up to `high` (exclusive, where `0` stands for the end), a negative
/// one from `low` down to `high` (exclusive).
pub open spec fn slice_indices(len: int, low: int, high: int, step: int) -> Seq<int> {
    if step > 0 {
        slice_up(to_index(len, low), to_index(len, high - 1), step, len)
    } else {
        slice_down(to_index(len, low), to_index(len, high), -step, len)
    }
}

/// A slice bound: an integer, or `nil` for `default`; `None` for anything else.
pub open spec fn slice_arg(a: Value, default: int) -> Option<int> {
    match a {
        Value::Int(x) => Some(x as int),
        Value::Nil => Some(default),
        _ => None,
    }
}

/// The error for slice bound `name` that is neither an integer nor `nil`.
pub open spec fn is_slice_arg_error(r: Result<Value, RuntimeError>, name: Seq<char>, a: Value) -> bool {
    r matches Err(RuntimeError::TypeErrorSliceArgMustBeInt(n, v)) && n@ == name && v == a
}

proof fn lemma_slice_up_past(start: int, stop: int, step: int, len: int)
    requires
        start >= len,
    ensures
        slice_up(start, stop, step, len) == Seq::<int>::empty(),
    decreases if start > stop { 0 } else { stop - start + 1 },
{
    if step > 0 && start <= stop {
        lemma_slice_up_past(start + step, stop, step, len);
    }
}

proof fn lemma_slice_down_past(start: int, stop: int, step: int, len: int)
    requires
        start < 0,
    ensures
        slice_down(start, stop, step, len) == Seq::<int>::empty(),
    decreases if start <= stop { 0 } else { start - stop },
{
    if step > 0 && start > stop {
        lemma_slice_down_past(start - step, stop, step, len);
    }
}

/// The elements of `xs`, each as `Some`.
fn wrap_all(xs: Vec<Value>) -> (r: Vec<Option<Value>>)
    ensures
        r@.len() == xs@.len(),
        forall|j: int| 0 <= j < xs@.len() ==> #[trigger] r@[j] == Some(xs@[j]),
{
    let ghost orig = xs@;
    let mut xs = xs;
    let mut rev: Vec<Value> = Vec::new();
    while xs.len() > 0
        invariant
            xs@.len() + rev@.len() == orig.len(),
            forall|j: int| 0 <= j < xs@.len() ==> #[trigger] xs@[j] == orig[j],
            forall|j: int| 0 <= j < rev@.len() ==> #[trigger] rev@[j] == orig[orig.len() - 1 - j],
        decreases xs.len(),
    {
        let x = xs.pop().unwrap();
        rev.push(x);
    }
    let mut r: Vec<Option<Value>> = Vec::new();
    while rev.len() > 0
        invariant
            r@.len() + rev@.len() == orig.len(),
            forall|j: int| 0 <= j < rev@.len() ==> #[trigger] rev@[j] == orig[orig.len() - 1 - j],
            forall|j: int| 0 <= j < r@.len() ==> #[trigger] r@[j] == Some(orig[j]),
        decreases rev.len(),
    {
        let x = rev.pop().unwrap();
        r.push(Some(x));
    }
    r
}

/// Takes element `i` out of `opts`, leaving `None` in its place.
fn take_at(opts: &mut Vec<Option<Value>>, i: usize) -> (r: Option<Value>)
    requires
        i < old(opts)@.len(),
    ensures
        r == old(opts)@[i as int],
        final(opts)@ == old(opts)@.update(i as int, None),
{
    let r = opts.remove(i);
    opts.insert(i, None);
    proof {
        assert(opts@ =~= old(opts)@.update(i as int, None));
    }
    r
}

/// `list[low:high:step]`: see `slice_indices`. Bounds and step are integers, or `nil` for
/// their defaults.
#[verifier::loop_isolation(false)]
pub fn list_slice(a1: Value, a2: Value, a3: Value, a4: Value) -> (r: Result<Value, RuntimeError>)
    requires
        a4 matches Value::Int(s) && s > 0 ==> !(a3 matches Value::Int(h) && h == i64::MIN),
        a4 is Nil ==> !(a3 matches Value::Int(h) && h == i64::MIN),
    ensures
        match a1 {
            Value::List(xs) => match slice_arg(a4, 1) {
                None => is_slice_arg_error(r, "step"@, a4),
                Some(step) => if step == 0 {
                    r == Err::<Value, RuntimeError>(RuntimeError::ValueErrorStepCannotBeZero)
                } else {
                    let len = xs@.len() as int;
                    match slice_arg(a2, if step > 0 { 0 } else { -1 }) {
                        None => is_slice_arg_error(r, "low"@, a2),
                        Some(low) => match slice_arg(a3, if step > 0 { 0 } else { -len - 1 }) {
                            None => is_slice_arg_error(r, "high"@, a3),
                            Some(high) => r matches Ok(Value::List(ys)) && ys@ == slice_indices(
                                len,
                                low,
                                high,
                                step,
                            ).map_values(|i: int| xs@[i]),
                        },
                    }
                },
            },
            t => r == Err::<Value, RuntimeError>(RuntimeError::TypeErrorArgMustBeSliceable(t)),
        },
{
    let xs = match a1 {
        Value::List(xs) => xs,
        t => return Err(RuntimeError::TypeErrorArgMustBeSliceable(t)),
    };
    let ghost xv = xs@;
    let length: i128 = xs.len() as i128;
    let step: i128 = match a4 {
        Value::Int(x) => x as i128,
        Value::Nil => 1,
        t => return Err(RuntimeError::TypeErrorSliceArgMustBeInt(String::from_str("step"), t)),
    };
    if step == 0 {
        return Err(RuntimeError::ValueErrorStepCannotBeZero);
    }
    let low: i128 = match a2 {
        Value::Int(x) => x as i128,
        Value::Nil => if step > 0 { 0 } else { -1 },
        t => return Err(RuntimeError::TypeErrorSliceArgMustBeInt(String::from_str("low"), t)),
    };
    let high: i128 = match a3 {
        Value::Int(x) => x as i128,
        Value::Nil => if step > 0 { 0 } else { -length - 1 },
        t => return Err(RuntimeError::TypeErrorSliceArgMustBeInt(String::from_str("high"), t)),
    };
    let abs_start: i128 = if low >= 0 { low } else { length + low };
    let mut opts = wrap_all(xs);
    let mut ys: Vec<Value> = Vec::new();
    let ghost want = slice_indices(length as int, low as int, high as int, step as int).map_values(|i: int| xv[i]);
    let mut i: i128 = abs_start;
    if step > 0 {
        let abs_stop: i128 = if high - 1 >= 0 { high - 1 } else { length + high - 1 };
        while i <= abs_stop
            invariant
                opts@.len() == length,
                forall|j: int| i <= j < length && 0 <= j ==> #[trigger] opts@[j] == Some(xv[j]),
                ys@ + slice_up(i as int, abs_stop as int, step as int, length as int).map_values(|j: int| xv[j]) == want,
                i <= abs_stop + step || i == abs_start,
                step > 0,
            decreases abs_stop + step - i,
        {
            if i >= length {
                proof {
                    lemma_slice_up_past(i as int, abs_stop as int, step as int, length as int);
                    assert(ys@ + Seq::<int>::empty().map_values(|j: int| xv[j]) =~= ys@);
                }
                break;
            }
            let ghost rest = slice_up(i + step, abs_stop as int, step as int, length as int);
            if i >= 0 {
                let x = take_at(&mut opts, i as usize).unwrap();
                proof {
                    assert(ys@.push(x) + rest.map_values(|j: int| xv[j]) =~= ys@ + (seq![i as int] + rest).map_values(|j: int| xv[j]));
                }
                ys.push(x);
            } else {
                proof {
                    assert(seq![] + rest =~= rest);
                }
            }
            i = i + step;
        }
    } else {
        let abs_stop: i128 = if high >= 0 { high } else { length + high };
        let abs_step: i128 = -step;
        while i > abs_stop
            invariant
                opts@.len() == length,
                forall|j: int| 0 <= j <= i && j < length ==> #[trigger] opts@[j] == Some(xv[j]),
                ys@ + slice_down(i as int, abs_stop as int, abs_step as int, length as int).map_values(|j: int| xv[j]) == want,
                abs_stop - abs_step <= i || i == abs_start,
                abs_step > 0,
            decreases i - abs_stop + abs_step,
        {
            if i < 0 {
                proof {
                    lemma_slice_down_past(i as int, abs_stop as int, abs_step as int, length as int);
                    assert(ys@ + Seq::<int>::empty().map_values(|j: int| xv[j]) =~= ys@);
                }
                break;
            }
            let ghost rest = slice_down(i - abs_step, abs_stop as int, abs_step as int, length as int);
            if i < length {
                let x = take_at(&mut opts, i as usize).unwrap();
                proof {
                    assert(ys@.push(x) + rest.map_values(|j: int| xv[j]) =~= ys@ + (seq![i as int] + rest).map_values(|j: int| xv[j]));
                }
                ys.push(x);
            } else {
                proof {
                    assert(seq![] + rest =~= rest);
                }
            }
            i = i - abs_step;
        }
    }
    proof {
        assert(ys@ + Seq::<int>::empty().map_values(|j: int| xv[j]) =~= ys@);
    }
    Ok(Value::List(ys))
}


// ===== Library functions ===== //

/// Where the first value of `xs` that is not an integer is (the length when there is none).
pub open spec fn first_non_int(xs: Seq<Value>) -> int
    decreases xs.len(),
{
    if xs.len() == 0 {
        0
    } else if !(xs[0] is Int) {
        0
    } else {
        1 + first_non_int(xs.drop_first())
    }
}

/// The sum of the integers among `xs[0..k]`.
pub open spec fn int_sum(xs: Seq<Value>, k: int) -> int
    decreases k,
{
    if k <= 0 || k > xs.len() {
        0
    } else {
        int_sum(xs, k - 1) + match xs[k - 1] {
            Value::Int(i) => i as int,
            _ => 0,
        }
    }
}

proof fn lemma_first_non_int(xs: Seq<Value>)
    ensures
        0 <= first_non_int(xs) <= xs.len(),
        forall|k: int| 0 <= k < first_non_int(xs) ==> #[trigger] xs[k] is Int,
        first_non_int(xs) < xs.len() ==> !(xs[first_non_int(xs)] is Int),
    decreases xs.len(),
{
    if xs.len() > 0 && xs[0] is Int {
        lemma_first_non_int(xs.drop_first());
        assert forall|k: int| 0 <= k < first_non_int(xs) implies #[trigger] xs[k] is Int by {
            if k > 0 {
                assert(xs[k] == xs.drop_first()[k - 1]);
            }
        }
    }
}

/// The sum of `args`, which must all be integers; the first one that is not is the error.
pub fn sum(args: Vec<Value>) -> (r: Result<Value, RuntimeError>)
    requires
        forall|k: int| 0 <= k <= first_non_int(args@) ==> i64::MIN <= #[trigger] int_sum(args@, k) <= i64::MAX,
    ensures
        first_non_int(args@) < args@.len() ==> r == Err::<Value, RuntimeError>(
            RuntimeError::TypeErrorArgMustBeInt(args@[first_non_int(args@)]),
        ),
        first_non_int(args@) == args@.len() ==> r == Ok::<Value, RuntimeError>(
            Value::Int(int_sum(args@, args@.len() as int) as i64),
        ),
{
    proof {
        lemma_first_non_int(args@);
    }
    let ghost xs = args@;
    let mut total: i64 = 0;
    let mut k: usize = 0;
    while k < args.len()
        invariant
            xs == args@,
            0 <= k <= first_non_int(xs),
            total == int_sum(xs, k as int),
            forall|k: int| 0 <= k <= first_non_int(xs) ==> i64::MIN <= #[trigger] int_sum(xs, k) <= i64::MAX,
            0 <= first_non_int(xs) <= xs.len(),
            forall|j: int| 0 <= j < first_non_int(xs) ==> #[trigger] xs[j] is Int,
            first_non_int(xs) < xs.len() ==> !(xs[first_non_int(xs)] is Int),
        decreases args.len() - k,
    {
        match &args[k] {
            Value::Int(i) => {
                proof {
                    assert(int_sum(xs, k + 1) == int_sum(xs, k as int) + *i);
                }
                total = total + *i;
            },
            _ => {
                let mut args = args;
                return Err(RuntimeError::TypeErrorArgMustBeInt(args.swap_remove(k)));
            },
        }
        k = k + 1;
    }
    Ok(Value::Int(total))
}

/// The elements of `args` in reverse order.
pub fn reversed(args: Vec<Value>) -> (r: Result<Value, RuntimeError>)
    ensures
        r matches Ok(Value::List(ys)) && ys@ == args@.reverse(),
{
    let ghost xs = args@;
    let mut args = args;
    let mut ys: Vec<Value> = Vec::new();
    while args.len() > 0
        invariant
            args@.len() <= xs.len(),
            args@ == xs.subrange(0, args@.len() as int),
            ys@ == xs.subrange(args@.len() as int, xs.len() as int).reverse(),
        decreases args.len(),
    {
        let x = args.pop().unwrap();
        ys.push(x);
        proof {
            assert(args@ =~= xs.subrange(0, args@.len() as int));
            assert(ys@ =~= xs.subrange(args@.len() as int, xs.len() as int).reverse());
        }
    }
    proof {
        assert(xs.subrange(0, xs.len() as int) =~= xs);
    }
    Ok(Value::List(ys))
}

/// The last element of a list or a set (`nil` when it is empty).
pub fn last(a1: Value) -> (r: Result<Value, RuntimeError>)
    ensures
        match a1 {
            Value::List(v) | Value::LinkedSet(v) => r == Ok::<Value, RuntimeError>(
                if v@.len() > 0 { v@.last() } else { Value::Nil },
            ),
            t => r == Err::<Value, RuntimeError>(RuntimeError::TypeErrorArgMustBeIterable(t)),
        },
{
    match a1 {
        Value::List(v) | Value::LinkedSet(v) => {
            let mut v = v;
            match v.pop() {
                Some(x) => Ok(x),
                None => Ok(Value::Nil),
            }
        },
        t => Err(RuntimeError::TypeErrorArgMustBeIterable(t)),
    }
}

/// The first element of a list or a set (`nil` when it is empty).
pub fn head(a1: Value) -> (r: Result<Value, RuntimeError>)
    ensures
        match a1 {
            Value::List(v) | Value::LinkedSet(v) => r == Ok::<Value, RuntimeError>(
                if v@.len() > 0 { v@[0] } else { Value::Nil },
            ),
            t => r == Err::<Value, RuntimeError>(RuntimeError::TypeErrorArgMustBeIterable(t)),
        },
{
    match a1 {
        Value::List(v) | Value::LinkedSet(v) => {
            if v.len() > 0 {
                let mut v = v;
                Ok(v.swap_remove(0))
            } else {
                Ok(Value::Nil)
            }
        },
        t => Err(RuntimeError::TypeErrorArgMustBeIterable(t)),
    }
}

/// A list or a set without its last element.
pub fn init(a1: Value) -> (r: Result<Value, RuntimeError>)
    ensures
        match a1 {
            Value::List(v) => r matches Ok(Value::List(w)) && w@ == (if v@.len() > 0 { v@.drop_last() } else { v@ }),
            Value::LinkedSet(v) => r matches Ok(Value::LinkedSet(w)) && w@ == (if v@.len() > 0 { v@.drop_last() } else { v@ }),
            t => r == Err::<Value, RuntimeError>(RuntimeError::TypeErrorArgMustBeIterable(t)),
        },
{
    match a1 {
        Value::List(v) => {
            let mut v = v;
            v.pop();
            Ok(Value::List(v))
        },
        Value::LinkedSet(v) => {
            let mut v = v;
            v.pop();
            Ok(Value::LinkedSet(v))
        },
        t => Err(RuntimeError::TypeErrorArgMustBeIterable(t)),
    }
}

/// A list or a set without its first element.
pub fn tail(a1: Value) -> (r: Result<Value, RuntimeError>)
    ensures
        match a1 {
            Value::List(v) => r matches Ok(Value::List(w)) && w@ == (if v@.len() > 0 { v@.drop_first() } else { v@ }),
            Value::LinkedSet(v) => r matches Ok(Value::LinkedSet(w)) && w@ == (if v@.len() > 0 { v@.drop_first() } else { v@ }),
            t => r == Err::<Value, RuntimeError>(RuntimeError::TypeErrorArgMustBeIterable(t)),
        },
{
    match a1 {
        Value::List(v) => {
            let mut v = v;
            if v.len() > 0 {
                v.remove(0);
            }
            Ok(Value::List(v))
        },
        Value::LinkedSet(v) => {
            let mut v = v;
            if v.len() > 0 {
                v.remove(0);
            }
            Ok(Value::LinkedSet(v))
        },
        t => Err(RuntimeError::TypeErrorArgMustBeIterable(t)),
    }
}

/// Removes the last element of a list or a set, or the last entry of a dict: gives it (the
/// entry's key) and the collection without it.
pub fn pop(a1: Value) -> (r: Result<(Value, Value), RuntimeError>)
    ensures
        match a1 {
            Value::List(v) => if v@.len() > 0 {
                r matches Ok((x, Value::List(w))) && x == v@.last() && w@ == v@.drop_last()
            } else {
                r == Err::<(Value, Value), RuntimeError>(RuntimeError::ValueErrorValueMustBeNonEmpty)
            },
            Value::LinkedSet(v) => if v@.len() > 0 {
                r matches Ok((x, Value::LinkedSet(w))) && x == v@.last() && w@ == v@.drop_last()
            } else {
                r == Err::<(Value, Value), RuntimeError>(RuntimeError::ValueErrorValueMustBeNonEmpty)
            },
            Value::Dict(v) => if v@.len() > 0 {
                r matches Ok((x, Value::Dict(w))) && x == v@.last().0 && w@ == v@.drop_last()
            } else {
                r == Err::<(Value, Value), RuntimeError>(RuntimeError::ValueErrorValueMustBeNonEmpty)
            },
            t => r == Err::<(Value, Value), RuntimeError>(RuntimeError::TypeErrorArgMustBeIterable(t)),
        },
{
    match a1 {
        Value::List(v) => {
            let mut v = v;
            match v.pop() {
                Some(x) => Ok((x, Value::List(v))),
                None => Err(RuntimeError::ValueErrorValueMustBeNonEmpty),
            }
        },
        Value::LinkedSet(v) => {
            let mut v = v;
            match v.pop() {
                Some(x) => Ok((x, Value::LinkedSet(v))),
                None => Err(RuntimeError::ValueErrorValueMustBeNonEmpty),
            }
        },
        Value::Dict(v) => {
            let mut v = v;
            match v.pop() {
                Some(kv) => Ok((kv.0, Value::Dict(v))),
                None => Err(RuntimeError::ValueErrorValueMustBeNonEmpty),
            }
        },
        t => Err(RuntimeError::TypeErrorArgMustBeIterable(t)),
    }
}


/// What `push` makes of the elements of a set: `a` is added unless an equal value is there.
pub open spec fn set_insert(v: Seq<Value>, a: Value) -> Seq<Value> {
    if exists|i: int| 0 <= i < v.len() && same(#[trigger] v[i], a) {
        v
    } else {
        v.push(a)
    }
}

/// Appends `a1` to a list; adds it to a set unless an equal value is there already. Gives the
/// collection afterwards.
#[verifier::loop_isolation(false)]
pub fn push(a1: Value, a2: Value) -> (r: Result<Value, RuntimeError>)
    ensures
        match a2 {
            Value::List(v) => r matches Ok(Value::List(w)) && w@ == v@.push(a1),
            Value::LinkedSet(v) => r matches Ok(Value::LinkedSet(w)) && w@ == set_insert(v@, a1),
            t => r == Err::<Value, RuntimeError>(RuntimeError::TypeErrorArgMustBeIterable(t)),
        },
{
    match a2 {
        Value::List(v) => {
            let mut v = v;
            v.push(a1);
            Ok(Value::List(v))
        },
        Value::LinkedSet(v) => {
            let mut k: usize = 0;
            while k < v.len()
                invariant
                    k <= v.len(),
                    forall|i: int| 0 <= i < k ==> !same(#[trigger] v@[i], a1),
                decreases v.len() - k,
            {
                if v[k].equals(&a1) {
                    return Ok(Value::LinkedSet(v));
                }
                k = k + 1;
            }
            let mut v = v;
            v.push(a1);
            Ok(Value::LinkedSet(v))
        },
        t => Err(RuntimeError::TypeErrorArgMustBeIterable(t)),
    }
}


// ===== Laws ===== //

proof fn lemma_slice_up_all(start: int, len: int)
    requires
        0 <= start <= len,
    ensures
        slice_up(start, len - 1, 1, len) == Seq::new((len - start) as nat, |k: int| start + k),
    decreases len - start,
{
    if start < len {
        lemma_slice_up_all(start + 1, len);
        assert(slice_up(start, len - 1, 1, len) =~= Seq::new((len - start) as nat, |k: int| start + k));
    } else {
        assert(slice_up(start, len - 1, 1, len) =~= Seq::new((len - start) as nat, |k: int| start + k));
    }
}

proof fn lemma_slice_down_all(start: int, len: int)
    requires
        -1 <= start < len,
    ensures
        slice_down(start, -1, 1, len) == Seq::new((start + 1) as nat, |k: int| start - k),
    decreases start + 1,
{
    if start >= 0 {
        lemma_slice_down_all(start - 1, len);
        assert(slice_down(start, -1, 1, len) =~= Seq::new((start + 1) as nat, |k: int| start - k));
    } else {
        assert(slice_down(start, -1, 1, len) =~= Seq::new((start + 1) as nat, |k: int| start - k));
    }
}

/// `list[::]`, with every bound and the step left out, takes every element in order.
pub proof fn law_full_slice(len: nat)
    ensures
        slice_indices(len as int, 0, 0, 1) == Seq::new(len, |k: int| k),
{
    lemma_slice_up_all(0, len as int);
    assert(Seq::new(len, |k: int| 0 + k) =~= Seq::new(len, |k: int| k));
}

/// The indices from `start` to `stop` (inclusive) by `step`: exactly those in `0..len` that
/// are `start` plus a multiple of `step`, in increasing order.
proof fn lemma_slice_up_members(start: int, stop: int, step: int, len: int)
    requires
        step > 0,
    ensures
        forall|k: int| #[trigger] slice_up(start, stop, step, len).contains(k)
            <==> (start <= k <= stop && 0 <= k < len && (k - start) % step == 0),
        forall|a: int, b: int| 0 <= a < b < slice_up(start, stop, step, len).len()
            ==> #[trigger] slice_up(start, stop, step, len)[a] < #[trigger] slice_up(start, stop, step, len)[b],
    decreases if start > stop { 0 } else { stop - start + 1 },
{
    let r = slice_up(start, stop, step, len);
    if start <= stop {
        let rest = slice_up(start + step, stop, step, len);
        lemma_slice_up_members(start + step, stop, step, len);
        let h: Seq<int> = if 0 <= start < len { seq![start] } else { seq![] };
        assert(r == h + rest);
        assert forall|k: int| #[trigger] r.contains(k)
            <==> (start <= k <= stop && 0 <= k < len && (k - start) % step == 0) by {
            let d = k - start;
            assert(d % step == (d - step) % step) by (nonlinear_arith)
                requires step > 0;
            assert(d > 0 && d % step == 0 ==> d >= step) by (nonlinear_arith)
                requires step > 0;
            assert(0int % step == 0) by (nonlinear_arith)
                requires step > 0;
            if r.contains(k) {
                let j = choose|j: int| 0 <= j < r.len() && r[j] == k;
                if j >= h.len() {
                    assert(rest[j - h.len()] == k);
                    assert(rest.contains(k));
                }
            }
            if start <= k <= stop && 0 <= k < len && d % step == 0 {
                if k == start {
                    assert(r[0] == k);
                } else {
                    assert(rest.contains(k));
                    let j = choose|j: int| 0 <= j < rest.len() && rest[j] == k;
                    assert(r[j + h.len()] == k);
                }
            }
        }
        assert forall|a: int, b: int| 0 <= a < b < r.len() implies #[trigger] r[a] < #[trigger] r[b] by {
            if a >= h.len() {
                assert(r[a] == rest[a - h.len()] && r[b] == rest[b - h.len()]);
            } else {
                assert(r[b] == rest[b - h.len()]);
                assert(rest.contains(rest[b - h.len()]));
            }
        }
    }
}

/// With a positive step, `list[low:high:step]` takes, in increasing order, exactly the
/// indices of the list from `low` up to but not including `high` that are `low` plus a
/// multiple of `step`, where a negative bound counts from the end and a `high` of `0` is the
/// end.
pub proof fn law_slice_up_bounds(len: int, low: int, high: int, step: int)
    requires
        step > 0,
    ensures
        ({
            let r = slice_indices(len, low, high, step);
            let start = to_index(len, low);
            let stop = if high == 0 { len } else { to_index(len, high) };
            &&& forall|k: int| #[trigger] r.contains(k)
                <==> (start <= k < stop && 0 <= k < len && (k - start) % step == 0)
            &&& forall|a: int, b: int| 0 <= a < b < r.len() ==> #[trigger] r[a] < #[trigger] r[b]
        }),
{
    lemma_slice_up_members(to_index(len, low), to_index(len, high - 1), step, len);
}

/// `list[::-1]`, with both bounds left out, takes every element in reverse order.
pub proof fn law_reverse_slice(len: nat)
    ensures
        slice_indices(len as int, -1, -(len as int) - 1, -1) == Seq::new(len, |k: int| len - 1 - k),
{
    lemma_slice_down_all(len - 1, len as int);
}

/// A value is equal to itself.
pub proof fn law_same_reflexive(v: Value)
    ensures
        same(v, v),
    decreases v, 1nat,
{
    match v {
        Value::List(xs) => lemma_same_from_refl(xs, 0),
        Value::LinkedSet(xs) => lemma_same_from_refl(xs, 0),
        Value::Vector(xs) => lemma_same_from_refl(xs, 0),
        Value::Dict(kvs) => lemma_same_entries_refl(kvs, 0),
        _ => {},
    }
}

proof fn lemma_same_from_refl(xs: Vec<Value>, i: nat)
    ensures
        same_from(xs, xs@, i),
    decreases xs, xs.len() - i,
{
    if i < xs.len() {
        assert(decreases_to!(xs => xs@));
        assert(decreases_to!(xs@ => xs@[i as int]));
        law_same_reflexive(xs@[i as int]);
        lemma_same_from_refl(xs, i + 1);
    }
}

proof fn lemma_same_entries_refl(kvs: Vec<(Value, Value)>, i: nat)
    ensures
        same_entries_from(kvs, kvs@, i),
    decreases kvs, kvs.len() - i,
{
    if i < kvs.len() {
        assert(decreases_to!(kvs => kvs@));
        assert(decreases_to!(kvs@ => kvs@[i as int]));
        assert(decreases_to!(kvs@[i as int] => kvs@[i as int].0));
        assert(decreases_to!(kvs@[i as int] => kvs@[i as int].1));
        law_same_reflexive(kvs@[i as int].0);
        law_same_reflexive(kvs@[i as int].1);
        lemma_same_entries_refl(kvs, i + 1);
    }
}

/// Pushing a value into a set twice leaves it as pushing it once.
pub proof fn law_set_push_idempotent(v: Seq<Value>, a: Value)
    ensures
        set_insert(set_insert(v, a), a) == set_insert(v, a),
{
    let w = set_insert(v, a);
    if !(exists|i: int| 0 <= i < v.len() && same(#[trigger] v[i], a)) {
        law_same_reflexive(a);
        assert(w[w.len() - 1] == a);
        assert(same(w[w.len() - 1], a));
    }
}

// ===== Filtering and folding by results of calls ===== //
//
// `filter` and `reduce` call a function value on each element, which is the virtual
// machine's part; what they make of the results of those calls is this.

/// The elements of `xs` at which `keep` is true, in order.
pub open spec fn kept_items(xs: Seq<Value>, keep: Seq<bool>) -> Seq<Value>
    decreases xs.len(),
{
    if xs.len() == 0 || keep.len() < xs.len() {
        seq![]
    } else {
        kept_items(xs.drop_last(), keep) + if keep[xs.len() - 1] { seq![xs.last()] } else { seq![] }
    }
}

/// What `filter` gives for the elements `items`, where calling the predicate on each
/// element gave `keep` (as truth values): the list of the elements kept. `None` where there
/// is not one result for each element.
pub fn filter_kept(items: Vec<Value>, keep: Vec<bool>) -> (r: Option<Value>)
    ensures
        items@.len() == keep@.len() ==> (r matches Some(Value::List(ys)) && ys@ == kept_items(items@, keep@)),
        items@.len() != keep@.len() ==> r is None,
{
    if items.len() != keep.len() {
        return None;
    }
    let ghost xs = items@;
    let mut items = items;
    let mut out: Vec<Value> = Vec::new();
    let mut k: usize = 0;
    while k < keep.len()
        invariant
            k <= keep.len(),
            keep@.len() == xs.len(),
            items@ == xs.subrange(k as int, xs.len() as int),
            out@ == kept_items(xs.subrange(0, k as int), keep@),
        decreases keep.len() - k,
    {
        let x = items.remove(0);
        proof {
            assert(x == xs[k as int]);
            assert(xs.subrange(0, k + 1).drop_last() =~= xs.subrange(0, k as int));
            assert(items@ =~= xs.subrange(k + 1, xs.len() as int));
        }
        if keep[k] {
            out.push(x);
        }
        proof {
            assert(out@ =~= kept_items(xs.subrange(0, k + 1), keep@));
        }
        k = k + 1;
    }
    proof {
        assert(xs.subrange(0, xs.len() as int) =~= xs);
    }
    Some(Value::List(out))
}

/// What `reduce` gives for the elements `items`, where the calls of the function, each on
/// the result so far and the next element, gave `results` in order: the first element
/// where there is no other, else the last result. `None` where there is not one result for
/// each element after the first.
pub fn reduce_folded(items: Vec<Value>, results: Vec<Value>) -> (r: Option<Result<Value, RuntimeError>>)
    ensures
        items@.len() == 0 ==> r == Some(Err::<Value, RuntimeError>(RuntimeError::ValueErrorValueMustBeNonEmpty)),
        items@.len() > 0 && results@.len() + 1 != items@.len() ==> r is None,
        items@.len() > 0 && results@.len() + 1 == items@.len() ==> r == Some(Ok::<Value, RuntimeError>(
            if results@.len() == 0 { items@[0] } else { results@.last() },
        )),
{
    let mut items = items;
    let mut results = results;
    if items.len() == 0 {
        return Some(Err(RuntimeError::ValueErrorValueMustBeNonEmpty));
    }
    if results.len() != items.len() - 1 {
        return None;
    }
    match results.pop() {
        Some(v) => Some(Ok(v)),
        None => Some(Ok(items.swap_remove(0))),
    }
}

} // verus!
