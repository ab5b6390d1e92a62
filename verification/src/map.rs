//! Maps: the order of keys, and entries kept in that order.
use vstd::prelude::*;
use vstd::string::StringSliceAdditionalSpecFns;
use vstd::utf8::encode_utf8;
use crate::text::{lemma_utf8_injective, same_text};
use crate::value::{entries_view, KeyModel, MapKey, Value, ValueModel};

verus! {

/// The value of a map field: entries in the order of their keys, no key twice,
/// but for those that decoding has added and not yet put in order.
pub struct MapValue {
    entries: Vec<(MapKey, Value)>,
}

impl MapValue {
    pub closed spec fn view(&self) -> Seq<(KeyModel, ValueModel)>
        decreases self,
    {
        entries_view(self.entries@)
    }
}

// ── The order of keys ───────────────────────────────────────────────────────

/// `a` comes before `b` in the dictionary order of byte strings.
pub open spec fn bytes_before(a: Seq<u8>, b: Seq<u8>) -> bool
    decreases a.len(),
{
    if b.len() == 0 {
        false
    } else if a.len() == 0 {
        true
    } else if a[0] == b[0] {
        bytes_before(a.skip(1), b.skip(1))
    } else {
        a[0] < b[0]
    }
}

/// The place of a key's type among the types of keys.
pub open spec fn key_rank(k: KeyModel) -> nat {
    match k {
        KeyModel::Bool(_) => 0,
        KeyModel::I32(_) => 1,
        KeyModel::I64(_) => 2,
        KeyModel::U32(_) => 3,
        KeyModel::U64(_) => 4,
        KeyModel::Text(_) => 5,
    }
}

/// `a` comes before `b` in the order of keys: by value for numbers, false
/// before true, by UTF-8 bytes for strings.
pub open spec fn key_before(a: KeyModel, b: KeyModel) -> bool {
    match (a, b) {
        (KeyModel::Bool(x), KeyModel::Bool(y)) => !x && y,
        (KeyModel::I32(x), KeyModel::I32(y)) => x < y,
        (KeyModel::I64(x), KeyModel::I64(y)) => x < y,
        (KeyModel::U32(x), KeyModel::U32(y)) => x < y,
        (KeyModel::U64(x), KeyModel::U64(y)) => x < y,
        (KeyModel::Text(x), KeyModel::Text(y)) => bytes_before(encode_utf8(x), encode_utf8(y)),
        _ => key_rank(a) < key_rank(b),
    }
}

proof fn lemma_bytes_before_total(a: Seq<u8>, b: Seq<u8>)
    ensures
        bytes_before(a, b) || bytes_before(b, a) || a == b,
        !(bytes_before(a, b) && bytes_before(b, a)),
        a == b ==> !bytes_before(a, b),
    decreases a.len(),
{
    if a.len() > 0 && b.len() > 0 {
        lemma_bytes_before_total(a.skip(1), b.skip(1));
        if a[0] == b[0] && a.skip(1) == b.skip(1) {
            assert(a =~= seq![a[0]] + a.skip(1));
            assert(b =~= seq![b[0]] + b.skip(1));
        }
    } else if a.len() == 0 && b.len() == 0 {
        assert(a =~= b);
    }
}

proof fn lemma_bytes_before_transitive(a: Seq<u8>, b: Seq<u8>, c: Seq<u8>)
    requires
        bytes_before(a, b),
        bytes_before(b, c),
    ensures
        bytes_before(a, c),
    decreases a.len(),
{
    if a.len() > 0 && a[0] == b[0] && b[0] == c[0] {
        lemma_bytes_before_transitive(a.skip(1), b.skip(1), c.skip(1));
    }
}

/// Of two keys exactly one of these holds: the first comes before, the second
/// does, or they are the same.
pub proof fn lemma_key_order_total(a: KeyModel, b: KeyModel)
    ensures
        key_before(a, b) || key_before(b, a) || a == b,
        !(key_before(a, b) && key_before(b, a)),
        a == b ==> !key_before(a, b),
{
    if let (KeyModel::Text(x), KeyModel::Text(y)) = (a, b) {
        lemma_bytes_before_total(encode_utf8(x), encode_utf8(y));
        if encode_utf8(x) == encode_utf8(y) {
            lemma_utf8_injective(x, y);
        }
    }
}

/// The order of keys is transitive.
pub proof fn lemma_key_order_transitive(a: KeyModel, b: KeyModel, c: KeyModel)
    requires
        key_before(a, b),
        key_before(b, c),
    ensures
        key_before(a, c),
{
    if let (KeyModel::Text(x), KeyModel::Text(y)) = (a, b) {
        if let KeyModel::Text(z) = c {
            lemma_bytes_before_transitive(encode_utf8(x), encode_utf8(y), encode_utf8(z));
        }
    }
}

fn compare_bytes(a: &[u8], b: &[u8]) -> (r: bool)
    ensures
        r == bytes_before(a@, b@),
{
    let mut i: usize = 0;
    assert(a@.skip(0) =~= a@);
    assert(b@.skip(0) =~= b@);
    loop
        invariant
            i <= a@.len(),
            i <= b@.len(),
            bytes_before(a@, b@) == bytes_before(a@.skip(i as int), b@.skip(i as int)),
        decreases a@.len() - i,
    {
        if i >= b.len() {
            return false;
        }
        if i >= a.len() {
            return true;
        }
        if a[i] != b[i] {
            return a[i] < b[i];
        }
        assert(a@.skip(i as int).skip(1) =~= a@.skip(i + 1));
        assert(b@.skip(i as int).skip(1) =~= b@.skip(i + 1));
        i = i + 1;
    }
}

/// Whether `a` comes before `b` in the order of their UTF-8 bytes.
pub fn text_before(a: &str, b: &str) -> (r: bool)
    ensures
        r == bytes_before(encode_utf8(a@), encode_utf8(b@)),
{
    compare_bytes(a.as_bytes(), b.as_bytes())
}

impl MapKey {
    fn rank(&self) -> (r: u8)
        ensures
            r == key_rank(self@),
    {
        match self {
            MapKey::Bool(_) => 0,
            MapKey::I32(_) => 1,
            MapKey::I64(_) => 2,
            MapKey::U32(_) => 3,
            MapKey::U64(_) => 4,
            MapKey::String(_) => 5,
        }
    }

    /// Whether this key comes before `other`.
    pub fn before(&self, other: &MapKey) -> (r: bool)
        ensures
            r == key_before(self@, other@),
    {
        match (self, other) {
            (MapKey::Bool(x), MapKey::Bool(y)) => !*x && *y,
            (MapKey::I32(x), MapKey::I32(y)) => *x < *y,
            (MapKey::I64(x), MapKey::I64(y)) => *x < *y,
            (MapKey::U32(x), MapKey::U32(y)) => *x < *y,
            (MapKey::U64(x), MapKey::U64(y)) => *x < *y,
            (MapKey::String(x), MapKey::String(y)) => text_before(x.as_str(), y.as_str()),
            _ => self.rank() < other.rank(),
        }
    }

    /// Whether this key is the same as `other`.
    pub fn same(&self, other: &MapKey) -> (r: bool)
        ensures
            r == (self@ == other@),
    {
        match (self, other) {
            (MapKey::Bool(x), MapKey::Bool(y)) => *x == *y,
            (MapKey::I32(x), MapKey::I32(y)) => *x == *y,
            (MapKey::I64(x), MapKey::I64(y)) => *x == *y,
            (MapKey::U32(x), MapKey::U32(y)) => *x == *y,
            (MapKey::U64(x), MapKey::U64(y)) => *x == *y,
            (MapKey::String(x), MapKey::String(y)) => same_text(x.as_str(), y.as_str()),
            _ => false,
        }
    }
}

// ── Entries in order ────────────────────────────────────────────────────────

/// The keys increase from entry to entry.
pub open spec fn entries_sorted(s: Seq<(KeyModel, ValueModel)>) -> bool {
    forall|i: int, j: int|
        0 <= i < j < s.len() ==> key_before((#[trigger] s[i]).0, (#[trigger] s[j]).0)
}

/// Ordered entries with `v` under `k`, in the place where `k` belongs.
pub open spec fn entry_put(s: Seq<(KeyModel, ValueModel)>, k: KeyModel, v: ValueModel) -> Seq<
    (KeyModel, ValueModel),
>
    decreases s.len(),
{
    if s.len() == 0 || key_before(s.last().0, k) {
        s.push((k, v))
    } else if s.last().0 == k {
        s.drop_last().push((k, v))
    } else {
        entry_put(s.drop_last(), k, v).push(s.last())
    }
}

/// The entries in the order of their keys, each key with the last value that
/// was given for it.
pub open spec fn normal_entries(s: Seq<(KeyModel, ValueModel)>) -> Seq<(KeyModel, ValueModel)>
    decreases s.len(),
{
    if s.len() == 0 {
        s
    } else {
        entry_put(normal_entries(s.drop_last()), s.last().0, s.last().1)
    }
}

proof fn lemma_entry_put_at(
    s: Seq<(KeyModel, ValueModel)>,
    k: KeyModel,
    v: ValueModel,
    p: int,
)
    requires
        0 <= p <= s.len(),
        forall|i: int|
            p <= i < s.len() ==> !key_before((#[trigger] s[i]).0, k) && s[i].0 != k,
        p == 0 || key_before(s[p - 1].0, k) || s[p - 1].0 == k,
    ensures
        p > 0 && s[p - 1].0 == k && !key_before(s[p - 1].0, k) ==> entry_put(s, k, v) == s.update(
            p - 1,
            (k, v),
        ),
        p == 0 || key_before(s[p - 1].0, k) ==> entry_put(s, k, v) == s.insert(p, (k, v)),
    decreases s.len(),
{
    if p < s.len() {
        lemma_entry_put_at(s.drop_last(), k, v, p);
        if p == 0 || key_before(s[p - 1].0, k) {
            assert(s.drop_last().insert(p, (k, v)).push(s.last()) =~= s.insert(p, (k, v)));
        } else {
            assert(s.drop_last().update(p - 1, (k, v)).push(s.last()) =~= s.update(
                p - 1,
                (k, v),
            ));
        }
    } else if p > 0 && !key_before(s[p - 1].0, k) {
        assert(s.drop_last().push((k, v)) =~= s.update(p - 1, (k, v)));
    } else {
        assert(s.push((k, v)) =~= s.insert(p, (k, v)));
    }
}

/// Putting an entry keeps the keys in order.
pub proof fn lemma_entry_put_sorted(s: Seq<(KeyModel, ValueModel)>, k: KeyModel, v: ValueModel)
    requires
        entries_sorted(s),
    ensures
        entries_sorted(entry_put(s, k, v)),
        forall|i: int|
            0 <= i < entry_put(s, k, v).len() ==> (#[trigger] entry_put(s, k, v)[i]).0 == k || (
            exists|j: int| 0 <= j < s.len() && (#[trigger] s[j]).0 == entry_put(s, k, v)[i].0),
    decreases s.len(),
{
    if s.len() > 0 {
        lemma_key_order_total(s.last().0, k);
        if key_before(s.last().0, k) {
            assert forall|i: int| 0 <= i < s.len() implies key_before((#[trigger] s[i]).0, k) by {
                if i < s.len() - 1 {
                    lemma_key_order_transitive(s[i].0, s.last().0, k);
                }
            }
        } else if s.last().0 != k {
            let t = s.drop_last();
            let u = entry_put(t, k, v);
            assert(entries_sorted(t));
            lemma_entry_put_sorted(t, k, v);
            assert forall|i: int| 0 <= i < u.len() implies key_before(
                (#[trigger] u[i]).0,
                s.last().0,
            ) by {
                if u[i].0 != k {
                    let j = choose|j: int| 0 <= j < t.len() && (#[trigger] t[j]).0 == u[i].0;
                    assert(s[j].0 == u[i].0);
                }
            }
            assert forall|i: int| 0 <= i < entry_put(s, k, v).len() implies (
            #[trigger] entry_put(s, k, v)[i]).0 == k || (exists|j: int|
                0 <= j < s.len() && (#[trigger] s[j]).0 == entry_put(s, k, v)[i].0) by {
                if i < u.len() {
                    assert(entry_put(s, k, v)[i] == u[i]);
                    if u[i].0 != k {
                        let j = choose|j: int| 0 <= j < t.len() && (#[trigger] t[j]).0 == u[i].0;
                        assert(s[j].0 == u[i].0);
                    }
                } else {
                    assert(s[s.len() - 1].0 == entry_put(s, k, v)[i].0);
                }
            }
        } else {
            assert forall|i: int| 0 <= i < entry_put(s, k, v).len() implies (
            #[trigger] entry_put(s, k, v)[i]).0 == k || (exists|j: int|
                0 <= j < s.len() && (#[trigger] s[j]).0 == entry_put(s, k, v)[i].0) by {
                assert(entry_put(s, k, v)[i].0 == s[i].0);
            }
        }
    }
    if s.len() == 0 || key_before(s.last().0, k) {
        assert forall|i: int| 0 <= i < entry_put(s, k, v).len() implies (
        #[trigger] entry_put(s, k, v)[i]).0 == k || (exists|j: int|
            0 <= j < s.len() && (#[trigger] s[j]).0 == entry_put(s, k, v)[i].0) by {
            if i < s.len() {
                assert(s[i].0 == entry_put(s, k, v)[i].0);
            }
        }
    }
}

/// Normalized entries are in order, no key twice.
pub proof fn lemma_normal_entries_sorted(s: Seq<(KeyModel, ValueModel)>)
    ensures
        entries_sorted(normal_entries(s)),
    decreases s.len(),
{
    if s.len() > 0 {
        lemma_normal_entries_sorted(s.drop_last());
        lemma_entry_put_sorted(normal_entries(s.drop_last()), s.last().0, s.last().1);
    }
}

/// Normalizing leaves entries alone that are in order.
pub proof fn lemma_normal_entries_id(s: Seq<(KeyModel, ValueModel)>)
    requires
        entries_sorted(s),
    ensures
        normal_entries(s) == s,
    decreases s.len(),
{
    if s.len() > 0 {
        let t = s.drop_last();
        assert(entries_sorted(t));
        lemma_normal_entries_id(t);
        if t.len() > 0 {
            assert(key_before(s[t.len() - 1].0, s[t.len() as int].0));
        }
        assert(t.push(s.last()) =~= s);
    }
}

impl MapValue {
    /// An empty map.
    pub fn new() -> (r: Self)
        ensures
            r@ == Seq::<(KeyModel, ValueModel)>::empty(),
    {
        let r = MapValue { entries: Vec::new() };
        assert(r@ =~= Seq::<(KeyModel, ValueModel)>::empty());
        r
    }

    /// The map with the given entries; of two with the same key the later one
    /// counts.
    pub fn from_entries(entries: Vec<(MapKey, Value)>) -> (r: Self)
        ensures
            r@ == normal_entries(entries_view(entries@)),
            entries_sorted(r@),
    {
        let mut r = MapValue { entries };
        r.normalize();
        r
    }

    /// The entries as they are, in whatever order.
    pub(crate) fn of_entries(entries: Vec<(MapKey, Value)>) -> (r: Self)
        ensures
            r@ == entries_view(entries@),
    {
        MapValue { entries }
    }

    /// The number of entries.
    pub fn len(&self) -> (r: usize)
        ensures
            r == self@.len(),
    {
        self.entries.len()
    }

    /// Whether the map has no entries.
    pub fn is_empty(&self) -> (r: bool)
        ensures
            r == (self@.len() == 0),
    {
        self.entries.len() == 0
    }

    /// The entry at position `i`, in the order of the keys.
    pub fn entry(&self, i: usize) -> (r: (&MapKey, &Value))
        requires
            i < self@.len(),
        ensures
            (r.0@, r.1@) == self@[i as int],
    {
        (&self.entries[i].0, &self.entries[i].1)
    }

    /// The entries, in the order of the keys.
    pub fn entries(&self) -> (r: &[(MapKey, Value)])
        ensures
            entries_view(r@) == self@,
    {
        self.entries.as_slice()
    }

    /// The entries, in the order of the keys, handed out.
    pub fn into_entries(self) -> (r: Vec<(MapKey, Value)>)
        ensures
            entries_view(r@) == self@,
    {
        self.entries
    }

    /// Adds an entry behind the others, whatever its key.
    pub(crate) fn push_unsorted(&mut self, k: MapKey, v: Value)
        ensures
            final(self)@ == old(self)@.push((k@, v@)),
    {
        let ghost was = self.entries@;
        let ghost e = (k@, v@);
        self.entries.push((k, v));
        assert(entries_view(self.entries@) =~= entries_view(was).push(e));
    }

    /// Puts the entries in the order of their keys; of two with the same key
    /// the later one stays.
    pub fn normalize(&mut self)
        ensures
            final(self)@ == normal_entries(old(self)@),
            entries_sorted(final(self)@),
    {
        let ghost all = self.entries@;
        proof {
            lemma_normal_entries_sorted(self@);
        }
        let mut back: Vec<(MapKey, Value)> = Vec::new();
        while self.entries.len() > 0
            invariant
                self.entries@.len() + back@.len() == all.len(),
                self.entries@ == all.take(self.entries@.len() as int),
                forall|i: int|
                    0 <= i < back@.len() ==> #[trigger] back@[i] == all[all.len() - 1 - i],
            decreases self.entries@.len(),
        {
            let ghost was = self.entries@;
            let e = self.entries.pop();
            if let Some(x) = e {
                back.push(x);
            }
            assert(self.entries@ =~= all.take(self.entries@.len() as int));
        }
        let mut out: Vec<(MapKey, Value)> = Vec::new();
        assert(normal_entries(entries_view(all).take(0)) =~= entries_view(out@));
        while back.len() > 0
            invariant
                back@.len() <= all.len(),
                forall|i: int|
                    0 <= i < back@.len() ==> #[trigger] back@[i] == all[all.len() - 1 - i],
                entries_view(out@) == normal_entries(
                    entries_view(all).take(all.len() - back@.len()),
                ),
            decreases back@.len(),
        {
            let ghost n = all.len() - back@.len();
            if let Some((k, v)) = back.pop() {
                proof {
                    let s = entries_view(all).take(n + 1);
                    assert(s.drop_last() =~= entries_view(all).take(n));
                    assert(s.last() == (k@, v@));
                }
                put_entry(&mut out, k, v);
            }
        }
        assert(entries_view(all).take(all.len() as int) =~= entries_view(all));
        self.entries = out;
    }
}

/// Puts an entry in the place where its key belongs.
fn put_entry(out: &mut Vec<(MapKey, Value)>, k: MapKey, v: Value)
    ensures
        entries_view(final(out)@) == entry_put(entries_view(old(out)@), k@, v@),
{
    let ghost before = out@;
    let ghost e = (k@, v@);
    let mut p: usize = out.len();
    while p > 0 && !out[p - 1].0.before(&k) && !out[p - 1].0.same(&k)
        invariant
            out@ == before,
            p <= before.len(),
            forall|i: int|
                p <= i < before.len() ==> !key_before((#[trigger] entries_view(before)[i]).0, k@)
                    && entries_view(before)[i].0 != k@,
        decreases p,
    {
        p = p - 1;
    }
    proof {
        lemma_entry_put_at(entries_view(before), k@, v@, p as int);
    }
    if p == 0 || out[p - 1].0.before(&k) {
        out.insert(p, (k, v));
        assert(entries_view(out@) =~= entries_view(before).insert(p as int, e));
    } else {
        out.set(p - 1, (k, v));
        assert(entries_view(out@) =~= entries_view(before).update(p - 1, e));
    }
}

} // verus!
