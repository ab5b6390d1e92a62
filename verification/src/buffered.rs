//! Objects that were read as a whole before anything was made of them: their
//! members in the order of their keys, no key twice.
use vstd::prelude::*;
use vstd::utf8::encode_utf8;
use crate::json::{double_is_finite, inputs_view, members_view, InputModel, JsonInput};
use crate::map::{bytes_before, lemma_key_order_total, lemma_key_order_transitive, text_before};
use crate::text::same_text;
use crate::value::KeyModel;

verus! {

// ── How deep values nest ────────────────────────────────────────────────────

/// How deep arrays and objects nest in a value.
pub open spec fn height(j: InputModel) -> nat
    decreases j,
{
    match j {
        InputModel::Array(a) => 1 + array_height(a),
        InputModel::Object(o) => 1 + object_height(o),
        _ => 0,
    }
}

/// How deep arrays and objects nest in the elements.
pub open spec fn array_height(a: Seq<InputModel>) -> nat
    decreases a,
{
    if a.len() == 0 {
        0
    } else {
        let front = array_height(a.drop_last());
        let last = height(a[a.len() - 1]);
        if front < last {
            last
        } else {
            front
        }
    }
}

/// How deep arrays and objects nest in the members.
pub open spec fn object_height(o: Seq<(Seq<char>, InputModel)>) -> nat
    decreases o,
{
    if o.len() == 0 {
        0
    } else {
        let front = object_height(o.drop_last());
        let last = height(o[o.len() - 1].1);
        if front < last {
            last
        } else {
            front
        }
    }
}

/// An element nests less deep than the array.
pub proof fn lemma_element_height(a: Seq<InputModel>, i: int)
    requires
        0 <= i < a.len(),
    ensures
        height(a[i]) <= array_height(a),
        height(a[i]) < height(InputModel::Array(a)),
    decreases a.len(),
{
    if i < a.len() - 1 {
        lemma_element_height(a.drop_last(), i);
    }
}

/// A member nests less deep than the object.
pub proof fn lemma_member_height(o: Seq<(Seq<char>, InputModel)>, i: int)
    requires
        0 <= i < o.len(),
    ensures
        height(o[i].1) <= object_height(o),
        height(o[i].1) < height(InputModel::Object(o)),
    decreases o.len(),
{
    if i < o.len() - 1 {
        lemma_member_height(o.drop_last(), i);
    }
}

proof fn lemma_object_height_bound(o: Seq<(Seq<char>, InputModel)>, h: nat)
    requires
        forall|i: int| 0 <= i < o.len() ==> height((#[trigger] o[i]).1) <= h,
    ensures
        object_height(o) <= h,
    decreases o.len(),
{
    if o.len() > 0 {
        lemma_object_height_bound(o.drop_last(), h);
    }
}

// ── Members in order ────────────────────────────────────────────────────────

/// Ordered members with `v` under `k`, in the place where `k` belongs.
pub open spec fn member_put(
    s: Seq<(Seq<char>, InputModel)>,
    k: Seq<char>,
    v: InputModel,
) -> Seq<(Seq<char>, InputModel)>
    decreases s.len(),
{
    if s.len() == 0 || bytes_before(encode_utf8(s.last().0), encode_utf8(k)) {
        s.push((k, v))
    } else if s.last().0 == k {
        s.drop_last().push((k, v))
    } else {
        member_put(s.drop_last(), k, v).push(s.last())
    }
}

/// The value as it is after it was read as a whole: in every object the
/// members in the order of their keys, each key with the last value that was
/// given for it; and null for a number that is not finite.
pub open spec fn buffered(j: InputModel) -> InputModel
    decreases j,
{
    match j {
        InputModel::Array(a) => InputModel::Array(buffered_items(a)),
        InputModel::Object(o) => InputModel::Object(buffered_members(o)),
        InputModel::Number(n) => if double_is_finite(n.double) {
            j
        } else {
            InputModel::Null
        },
        _ => j,
    }
}

/// The elements as they are after they were read as a whole.
pub open spec fn buffered_items(a: Seq<InputModel>) -> Seq<InputModel>
    decreases a,
{
    if a.len() == 0 {
        Seq::empty()
    } else {
        buffered_items(a.drop_last()).push(buffered(a[a.len() - 1]))
    }
}

/// The members as they are after they were read as a whole.
pub open spec fn buffered_members(o: Seq<(Seq<char>, InputModel)>) -> Seq<(Seq<char>, InputModel)>
    decreases o,
{
    if o.len() == 0 {
        Seq::empty()
    } else {
        member_put(
            buffered_members(o.drop_last()),
            o[o.len() - 1].0,
            buffered(o[o.len() - 1].1),
        )
    }
}

proof fn lemma_put_twice(
    s: Seq<(Seq<char>, InputModel)>,
    k: Seq<char>,
    v: InputModel,
    l: Seq<char>,
    w: InputModel,
)
    requires
        bytes_before(encode_utf8(k), encode_utf8(l)),
    ensures
        member_put(member_put(s, k, v), l, w) == member_put(member_put(s, l, w), k, v),
    decreases s.len(),
{
    let first = member_put(s, k, v);
    let second = member_put(s, l, w);
    lemma_key_order_total(KeyModel::Text(k), KeyModel::Text(l));
    if s.len() == 0 {
        assert(second.drop_last() =~= s);
        assert(member_put(first, l, w) =~= member_put(second, k, v));
    } else {
        let x = s.last().0;
        let t = s.drop_last();
        lemma_key_order_total(KeyModel::Text(x), KeyModel::Text(k));
        lemma_key_order_total(KeyModel::Text(x), KeyModel::Text(l));
        if x == k || bytes_before(encode_utf8(x), encode_utf8(l)) || bytes_before(
            encode_utf8(x),
            encode_utf8(k),
        ) {
            if bytes_before(encode_utf8(x), encode_utf8(k)) {
                lemma_key_order_transitive(
                    KeyModel::Text(x),
                    KeyModel::Text(k),
                    KeyModel::Text(l),
                );
            }
            assert(second == s.push((l, w)));
            assert(second.drop_last() =~= s);
            assert(member_put(second, k, v) == first.push((l, w)));
        } else {
            if bytes_before(encode_utf8(l), encode_utf8(x)) {
                lemma_key_order_transitive(
                    KeyModel::Text(k),
                    KeyModel::Text(l),
                    KeyModel::Text(x),
                );
            }
            let u = member_put(t, k, v);
            assert(first == u.push(s.last()));
            assert(first.drop_last() =~= u);
            if x == l {
                assert(second == t.push((l, w)));
                assert(second.drop_last() =~= t);
            } else {
                let y = member_put(t, l, w);
                assert(second == y.push(s.last()));
                assert(second.drop_last() =~= y);
                lemma_put_twice(t, k, v, l, w);
            }
        }
    }
}

/// It does not matter which of two members with different keys is put first.
pub proof fn lemma_put_either_way(
    s: Seq<(Seq<char>, InputModel)>,
    k: Seq<char>,
    v: InputModel,
    l: Seq<char>,
    w: InputModel,
)
    requires
        k != l,
    ensures
        member_put(member_put(s, k, v), l, w) == member_put(member_put(s, l, w), k, v),
{
    lemma_key_order_total(KeyModel::Text(k), KeyModel::Text(l));
    if bytes_before(encode_utf8(k), encode_utf8(l)) {
        lemma_put_twice(s, k, v, l, w);
    } else {
        lemma_put_twice(s, l, w, k, v);
    }
}

/// Wherever a member stands among members with other keys, it might as well
/// stand behind them.
pub proof fn lemma_member_moved(
    a: Seq<(Seq<char>, InputModel)>,
    t: (Seq<char>, InputModel),
    b: Seq<(Seq<char>, InputModel)>,
)
    requires
        forall|i: int| 0 <= i < b.len() ==> (#[trigger] b[i]).0 != t.0,
    ensures
        buffered_members(a.push(t) + b) == member_put(
            buffered_members(a + b),
            t.0,
            buffered(t.1),
        ),
    decreases b.len(),
{
    if b.len() == 0 {
        assert(a.push(t) + b =~= a.push(t));
        assert(a + b =~= a);
        assert(a.push(t).drop_last() =~= a);
    } else {
        let c = b.drop_last();
        let u = b[b.len() - 1];
        lemma_member_moved(a, t, c);
        assert((a.push(t) + b).drop_last() =~= a.push(t) + c);
        assert((a + b).drop_last() =~= a + c);
        lemma_put_either_way(
            buffered_members(a + c),
            t.0,
            buffered(t.1),
            u.0,
            buffered(u.1),
        );
    }
}

/// The position, from `i` on, of the first member under `k`.
pub open spec fn member_at(o: Seq<(Seq<char>, InputModel)>, k: Seq<char>, i: nat) -> Option<nat>
    decreases o.len() - i,
{
    if i >= o.len() {
        None
    } else if o[i as int].0 == k {
        Some(i)
    } else {
        member_at(o, k, i + 1)
    }
}

/// A position that was found is one.
pub proof fn lemma_member_at(o: Seq<(Seq<char>, InputModel)>, k: Seq<char>, i: nat)
    ensures
        member_at(o, k, i) matches Some(p) ==> i <= p < o.len() && o[p as int].0 == k,
    decreases o.len() - i,
{
    if i < o.len() && o[i as int].0 != k {
        lemma_member_at(o, k, i + 1);
    }
}

proof fn lemma_put_height(s: Seq<(Seq<char>, InputModel)>, k: Seq<char>, v: InputModel, h: nat)
    requires
        object_height(s) <= h,
        height(v) <= h,
    ensures
        object_height(member_put(s, k, v)) <= h,
    decreases s.len(),
{
    if s.len() == 0 || bytes_before(encode_utf8(s.last().0), encode_utf8(k)) {
        assert(s.push((k, v)).drop_last() =~= s);
    } else if s.last().0 == k {
        assert(s.drop_last().push((k, v)).drop_last() =~= s.drop_last());
    } else {
        lemma_put_height(s.drop_last(), k, v, h);
        let t = member_put(s.drop_last(), k, v);
        assert(t.push(s.last()).drop_last() =~= t);
    }
}

/// Reading a value as a whole makes it nest no deeper.
pub proof fn lemma_buffered_height(j: InputModel)
    ensures
        height(buffered(j)) <= height(j),
    decreases j,
{
    match j {
        InputModel::Array(a) => {
            lemma_buffered_items_height(a);
        },
        InputModel::Object(o) => {
            lemma_buffered_members_height(o);
        },
        _ => {},
    }
}

proof fn lemma_buffered_items_height(a: Seq<InputModel>)
    ensures
        array_height(buffered_items(a)) <= array_height(a),
    decreases a,
{
    if a.len() > 0 {
        lemma_buffered_items_height(a.drop_last());
        lemma_buffered_height(a[a.len() - 1]);
        let t = buffered_items(a.drop_last());
        assert(t.push(buffered(a[a.len() - 1])).drop_last() =~= t);
    }
}

/// Reading members as a whole makes them nest no deeper.
pub proof fn lemma_buffered_members_height(o: Seq<(Seq<char>, InputModel)>)
    ensures
        object_height(buffered_members(o)) <= object_height(o),
    decreases o,
{
    if o.len() > 0 {
        lemma_buffered_members_height(o.drop_last());
        lemma_buffered_height(o[o.len() - 1].1);
        lemma_put_height(
            buffered_members(o.drop_last()),
            o[o.len() - 1].0,
            buffered(o[o.len() - 1].1),
            object_height(o),
        );
    }
}

/// Without one of their members, members nest no deeper.
pub proof fn lemma_remove_height(o: Seq<(Seq<char>, InputModel)>, p: int)
    requires
        0 <= p < o.len(),
    ensures
        object_height(o.remove(p)) <= object_height(o),
{
    let t = o.remove(p);
    assert forall|i: int| 0 <= i < t.len() implies height((#[trigger] t[i]).1) <= object_height(
        o,
    ) by {
        if i < p {
            lemma_member_height(o, i);
        } else {
            lemma_member_height(o, i + 1);
        }
    }
    lemma_object_height_bound(t, object_height(o));
}

proof fn lemma_member_put_at(
    s: Seq<(Seq<char>, InputModel)>,
    k: Seq<char>,
    v: InputModel,
    p: int,
)
    requires
        0 <= p <= s.len(),
        forall|i: int|
            p <= i < s.len() ==> !bytes_before(encode_utf8((#[trigger] s[i]).0), encode_utf8(k))
                && s[i].0 != k,
        p == 0 || bytes_before(encode_utf8(s[p - 1].0), encode_utf8(k)) || s[p - 1].0 == k,
    ensures
        p > 0 && s[p - 1].0 == k && !bytes_before(encode_utf8(s[p - 1].0), encode_utf8(k))
            ==> member_put(s, k, v) == s.update(p - 1, (k, v)),
        p == 0 || bytes_before(encode_utf8(s[p - 1].0), encode_utf8(k)) ==> member_put(s, k, v)
            == s.insert(p, (k, v)),
    decreases s.len(),
{
    if p < s.len() {
        lemma_member_put_at(s.drop_last(), k, v, p);
        if p == 0 || bytes_before(encode_utf8(s[p - 1].0), encode_utf8(k)) {
            assert(s.drop_last().insert(p, (k, v)).push(s.last()) =~= s.insert(p, (k, v)));
        } else {
            assert(s.drop_last().update(p - 1, (k, v)).push(s.last()) =~= s.update(
                p - 1,
                (k, v),
            ));
        }
    } else if p > 0 && !bytes_before(encode_utf8(s[p - 1].0), encode_utf8(k)) {
        assert(s.drop_last().push((k, v)) =~= s.update(p - 1, (k, v)));
    } else {
        assert(s.push((k, v)) =~= s.insert(p, (k, v)));
    }
}

/// Puts a member in the place where its key belongs.
fn put_member(out: &mut Vec<(String, JsonInput)>, k: String, v: JsonInput)
    ensures
        members_view(final(out)@) == member_put(members_view(old(out)@), k@, v@),
{
    let ghost before = out@;
    let ghost e = (k@, v@);
    let mut p: usize = out.len();
    while p > 0 && !text_before(out[p - 1].0.as_str(), k.as_str()) && !same_text(
        out[p - 1].0.as_str(),
        k.as_str(),
    )
        invariant
            out@ == before,
            p <= before.len(),
            forall|i: int|
                p <= i < before.len() ==> !bytes_before(
                    encode_utf8((#[trigger] members_view(before)[i]).0),
                    encode_utf8(k@),
                ) && members_view(before)[i].0 != k@,
        decreases p,
    {
        p = p - 1;
    }
    proof {
        lemma_member_put_at(members_view(before), k@, v@, p as int);
    }
    if p == 0 || text_before(out[p - 1].0.as_str(), k.as_str()) {
        out.insert(p, (k, v));
        assert(members_view(out@) =~= members_view(before).insert(p as int, e));
    } else {
        out.set(p - 1, (k, v));
        assert(members_view(out@) =~= members_view(before).update(p - 1, e));
    }
}

/// Reads a value as a whole.
pub fn buffer(j: &JsonInput) -> (r: JsonInput)
    ensures
        r@ == buffered(j@),
    decreases height(j@), 1nat,
{
    match j {
        JsonInput::Null => JsonInput::Null,
        JsonInput::Bool(b) => JsonInput::Bool(*b),
        JsonInput::Number(n) => if (n.double / 0x10_0000_0000_0000) % 2048 != 2047 {
            JsonInput::Number(*n)
        } else {
            JsonInput::Null
        },
        JsonInput::Text(s) => JsonInput::Text(s.clone()),
        JsonInput::Array(a) => {
            let ghost all = inputs_view(a@);
            let mut out: Vec<JsonInput> = Vec::new();
            let mut i: usize = 0;
            assert(buffered_items(all.take(0)) =~= inputs_view(out@));
            while i < a.len()
                invariant
                    j@ == InputModel::Array(all),
                    all == inputs_view(a@),
                    i <= a@.len(),
                    inputs_view(out@) == buffered_items(all.take(i as int)),
                decreases a@.len() - i,
            {
                proof {
                    lemma_element_height(all, i as int);
                    assert(all[i as int] == a@[i as int]@);
                    assert(all.take(i + 1).drop_last() =~= all.take(i as int));
                }
                let ghost was = inputs_view(out@);
                let b = buffer(&a[i]);
                let ghost b0 = b@;
                out.push(b);
                assert(inputs_view(out@) =~= was.push(b0));
                i = i + 1;
            }
            assert(all.take(i as int) =~= all);
            JsonInput::Array(out)
        },
        JsonInput::Object(o) => JsonInput::Object(buffer_members(o)),
    }
}

/// Reads members as a whole.
pub fn buffer_members(o: &Vec<(String, JsonInput)>) -> (r: Vec<(String, JsonInput)>)
    ensures
        members_view(r@) == buffered_members(members_view(o@)),
    decreases height(InputModel::Object(members_view(o@))), 0nat,
{
    let ghost all = members_view(o@);
    let mut out: Vec<(String, JsonInput)> = Vec::new();
    let mut i: usize = 0;
    assert(buffered_members(all.take(0)) =~= members_view(out@));
    while i < o.len()
        invariant
            all == members_view(o@),
            i <= o@.len(),
            members_view(out@) == buffered_members(all.take(i as int)),
        decreases o@.len() - i,
    {
        proof {
            lemma_member_height(all, i as int);
            assert(all[i as int] == (o@[i as int].0@, o@[i as int].1@));
            assert(all.take(i + 1).drop_last() =~= all.take(i as int));
        }
        put_member(&mut out, o[i].0.clone(), buffer(&o[i].1));
        i = i + 1;
    }
    assert(all.take(i as int) =~= all);
    out
}

/// Takes the member under `key` out.
pub fn remove_member(o: &mut Vec<(String, JsonInput)>, key: &str) -> (r: Option<JsonInput>)
    ensures
        match member_at(members_view(old(o)@), key@, 0) {
            Some(p) => {
                &&& p < old(o)@.len()
                &&& r matches Some(v) && v@ == members_view(old(o)@)[p as int].1
                &&& members_view(final(o)@) == members_view(old(o)@).remove(p as int)
            },
            None => r is None && final(o)@ == old(o)@,
        },
{
    let ghost before = o@;
    let ghost all = members_view(o@);
    let mut i: usize = 0;
    while i < o.len()
        invariant
            o@ == before,
            before == old(o)@,
            all == members_view(before),
            i <= before.len(),
            member_at(all, key@, 0) == member_at(all, key@, i as nat),
        decreases before.len() - i,
    {
        if same_text(o[i].0.as_str(), key) {
            assert(all[i as int] == (before[i as int].0@, before[i as int].1@));
            let e = o.remove(i);
            assert(members_view(o@) =~= all.remove(i as int));
            return Some(e.1);
        }
        i = i + 1;
    }
    None
}

} // verus!
