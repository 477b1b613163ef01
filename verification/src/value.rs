//! The parsed value tree and its ordered-object representation.
//!
//! An object is an ordered mapping from string key to value.  Iteration
//! follows the order in which keys first appear; inserting an existing key
//! replaces its value in place, keeping the key's original position (last
//! write wins, first position kept).  That policy is fixed by
//! [`insert_entry`] and proved of the executable [`JsonObject::insert`].

use crate::common::str_eq;
use vstd::prelude::*;

verus! {

/// The mathematical image of a parsed value: strings become character
/// sequences, numbers their literal text, objects ordered key/value entry
/// sequences.
pub enum SpecValue {
    Object(Seq<(Seq<char>, SpecValue)>),
    Array(Seq<SpecValue>),
    String(Seq<char>),
    Number(Seq<char>),
    Boolean(bool),
    Null,
}

/// A parsed JSON value: the closed tagged variant set of the value grammar.
/// `String` holds the text with the surrounding quotes stripped (escape
/// sequences are passed through literally, not decoded).  `Number` holds the
/// exact literal text of the number; turning it into a machine float is
/// left to unverified consumers.
#[derive(Debug, PartialEq)]
pub enum JsonExpr {
    Object(JsonObject),
    Array(Vec<JsonExpr>),
    String(String),
    Number(String),
    Boolean(bool),
    Null,
}

/// An ordered mapping from string key to value, preserving first-insertion
/// order of keys.
#[derive(Debug, PartialEq)]
pub struct JsonObject {
    pub entries: Vec<(String, JsonExpr)>,
}

/// The images of the first `n` entries of an entry list.
pub open spec fn entries_view_upto(es: Seq<(String, JsonExpr)>, n: int) -> Seq<
    (Seq<char>, SpecValue),
>
    decreases es, n,
{
    if n <= 0 || n > es.len() {
        Seq::empty()
    } else {
        entries_view_upto(es, n - 1).push((es[n - 1].0@, es[n - 1].1@))
    }
}

/// The images of an entry list's entries.
pub open spec fn entries_view(es: Seq<(String, JsonExpr)>) -> Seq<(Seq<char>, SpecValue)>
    decreases es, es.len() + 1,
{
    entries_view_upto(es, es.len() as int)
}

/// The images of the first `n` elements of a value list.
pub open spec fn values_view_upto(vs: Seq<JsonExpr>, n: int) -> Seq<SpecValue>
    decreases vs, n,
{
    if n <= 0 || n > vs.len() {
        Seq::empty()
    } else {
        values_view_upto(vs, n - 1).push(vs[n - 1]@)
    }
}

/// The images of a value list's elements.
pub open spec fn values_view(vs: Seq<JsonExpr>) -> Seq<SpecValue>
    decreases vs, vs.len() + 1,
{
    values_view_upto(vs, vs.len() as int)
}

impl View for JsonExpr {
    type V = SpecValue;

    open spec fn view(&self) -> SpecValue
        decreases self,
    {
        match self {
            JsonExpr::Object(o) => SpecValue::Object(entries_view(o.entries@)),
            JsonExpr::Array(a) => SpecValue::Array(values_view(a@)),
            JsonExpr::String(t) => SpecValue::String(t@),
            JsonExpr::Number(t) => SpecValue::Number(t@),
            JsonExpr::Boolean(b) => SpecValue::Boolean(*b),
            JsonExpr::Null => SpecValue::Null,
        }
    }
}

impl View for JsonObject {
    type V = Seq<(Seq<char>, SpecValue)>;

    open spec fn view(&self) -> Seq<(Seq<char>, SpecValue)> {
        entries_view(self.entries@)
    }
}

pub proof fn lemma_entries_view_upto(es: Seq<(String, JsonExpr)>, n: int)
    requires
        0 <= n <= es.len(),
    ensures
        entries_view_upto(es, n).len() == n,
        forall|i: int|
            0 <= i < n ==> #[trigger] entries_view_upto(es, n)[i] == (es[i].0@, es[i].1@),
    decreases n,
{
    if n > 0 {
        lemma_entries_view_upto(es, n - 1);
        assert(entries_view_upto(es, n) == entries_view_upto(es, n - 1).push(
            (es[n - 1].0@, es[n - 1].1@),
        ));
    } else {
        assert(entries_view_upto(es, n) == Seq::<(Seq<char>, SpecValue)>::empty());
    }
}

/// Entry images line up index by index with the entries.
pub proof fn lemma_entries_view(es: Seq<(String, JsonExpr)>)
    ensures
        entries_view(es).len() == es.len(),
        forall|i: int|
            0 <= i < es.len() ==> #[trigger] entries_view(es)[i] == (es[i].0@, es[i].1@),
{
    lemma_entries_view_upto(es, es.len() as int);
}

pub proof fn lemma_values_view_upto(vs: Seq<JsonExpr>, n: int)
    requires
        0 <= n <= vs.len(),
    ensures
        values_view_upto(vs, n).len() == n,
        forall|i: int| 0 <= i < n ==> #[trigger] values_view_upto(vs, n)[i] == vs[i]@,
    decreases n,
{
    if n > 0 {
        lemma_values_view_upto(vs, n - 1);
        assert(values_view_upto(vs, n) == values_view_upto(vs, n - 1).push(vs[n - 1]@));
    } else {
        assert(values_view_upto(vs, n) == Seq::<SpecValue>::empty());
    }
}

/// Element images line up index by index with the elements.
pub proof fn lemma_values_view(vs: Seq<JsonExpr>)
    ensures
        values_view(vs).len() == vs.len(),
        forall|i: int| 0 <= i < vs.len() ==> #[trigger] values_view(vs)[i] == vs[i]@,
{
    lemma_values_view_upto(vs, vs.len() as int);
}

// ---------------------------------------------------------------------------
// The ordered-mapping model: position of a key, insertion, lookup.
// ---------------------------------------------------------------------------

/// The position of the first entry whose key is `k`, or `-1` when no entry
/// has that key.
pub open spec fn find_key(es: Seq<(Seq<char>, SpecValue)>, k: Seq<char>) -> int
    decreases es.len(),
{
    if es.len() == 0 {
        -1
    } else if es[0].0 == k {
        0
    } else {
        let r = find_key(es.drop_first(), k);
        if r < 0 {
            -1
        } else {
            r + 1
        }
    }
}

/// Whether some entry has key `k`.
pub open spec fn has_key(es: Seq<(Seq<char>, SpecValue)>, k: Seq<char>) -> bool {
    find_key(es, k) >= 0
}

/// Inserting under key `k`: an existing entry keeps its position and gets
/// the new value (last write wins); a new key is appended at the end.
pub open spec fn insert_entry(
    es: Seq<(Seq<char>, SpecValue)>,
    k: Seq<char>,
    v: SpecValue,
) -> Seq<(Seq<char>, SpecValue)> {
    let i = find_key(es, k);
    if i >= 0 {
        es.update(i, (k, v))
    } else {
        es.push((k, v))
    }
}

/// The value stored under key `k`, if any.
pub open spec fn lookup_entry(es: Seq<(Seq<char>, SpecValue)>, k: Seq<char>) -> Option<
    SpecValue,
> {
    let i = find_key(es, k);
    if i >= 0 {
        Some(es[i].1)
    } else {
        None
    }
}

/// The keys of an entry list, in iteration order.
pub open spec fn entry_keys(es: Seq<(Seq<char>, SpecValue)>) -> Seq<Seq<char>> {
    es.map_values(|e: (Seq<char>, SpecValue)| e.0)
}

/// No two entries share a key.
pub open spec fn unique_keys(es: Seq<(Seq<char>, SpecValue)>) -> bool {
    forall|i: int, j: int| 0 <= i < j < es.len() ==> (#[trigger] es[i]).0 != (#[trigger] es[j]).0
}

/// The ordered-mapping invariant, at every level of a value tree: no
/// object holds two entries with the same key.
pub open spec fn wf_value(v: SpecValue) -> bool
    decreases v,
{
    match v {
        SpecValue::Object(es) => unique_keys(es) && (forall|i: int|
            0 <= i < es.len() ==> wf_value(#[trigger] es[i].1)),
        SpecValue::Array(vs) => forall|i: int| 0 <= i < vs.len() ==> wf_value(#[trigger] vs[i]),
        _ => true,
    }
}

/// Every value stored by an insertion is either the inserted value or one
/// already present.
pub proof fn lemma_insert_values(es: Seq<(Seq<char>, SpecValue)>, k: Seq<char>, v: SpecValue)
    ensures
        forall|j: int|
            0 <= j < insert_entry(es, k, v).len() ==> (#[trigger] insert_entry(es, k, v)[j]).1
                == v || (exists|m: int| 0 <= m < es.len() && #[trigger] es[m].1 == insert_entry(
                es,
                k,
                v,
            )[j].1),
{
    let i = find_key(es, k);
    lemma_find_key(es, k);
    assert forall|j: int| 0 <= j < insert_entry(es, k, v).len() implies (#[trigger] insert_entry(
        es,
        k,
        v,
    )[j]).1 == v || (exists|m: int|
        0 <= m < es.len() && #[trigger] es[m].1 == insert_entry(es, k, v)[j].1) by {
        if i >= 0 {
            if j != i {
                assert(es[j].1 == insert_entry(es, k, v)[j].1);
            }
        } else {
            if j < es.len() {
                assert(es[j].1 == insert_entry(es, k, v)[j].1);
            }
        }
    }
}

/// What `find_key` finds: a real position holding `k`, before which no
/// entry holds `k`; or the absence of `k` altogether.
pub proof fn lemma_find_key(es: Seq<(Seq<char>, SpecValue)>, k: Seq<char>)
    ensures
        find_key(es, k) == -1 || (0 <= find_key(es, k) < es.len()),
        find_key(es, k) == -1 ==> forall|i: int| 0 <= i < es.len() ==> (#[trigger] es[i]).0 != k,
        find_key(es, k) >= 0 ==> es[find_key(es, k)].0 == k,
        find_key(es, k) >= 0 ==> forall|i: int|
            0 <= i < find_key(es, k) ==> (#[trigger] es[i]).0 != k,
    decreases es.len(),
{
    if es.len() > 0 && es[0].0 != k {
        lemma_find_key(es.drop_first(), k);
        assert(forall|i: int|
            1 <= i < es.len() ==> #[trigger] es[i] == es.drop_first()[i - 1]);
    }
}

/// A position holding `k`, with no earlier entry holding `k`, is exactly
/// what `find_key` returns.
pub proof fn lemma_find_key_at(es: Seq<(Seq<char>, SpecValue)>, k: Seq<char>, j: int)
    requires
        0 <= j < es.len(),
        es[j].0 == k,
        forall|i: int| 0 <= i < j ==> (#[trigger] es[i]).0 != k,
    ensures
        find_key(es, k) == j,
    decreases es.len(),
{
    if j > 0 {
        lemma_find_key_at(es.drop_first(), k, j - 1);
    }
}

/// A list none of whose entries holds `k` has no position for `k`.
pub proof fn lemma_find_key_none(es: Seq<(Seq<char>, SpecValue)>, k: Seq<char>)
    requires
        forall|i: int| 0 <= i < es.len() ==> (#[trigger] es[i]).0 != k,
    ensures
        find_key(es, k) == -1,
    decreases es.len(),
{
    if es.len() > 0 {
        lemma_find_key_none(es.drop_first(), k);
    }
}

/// Last write wins: after inserting `v` under `k`, looking up `k` yields
/// exactly `v`.
pub proof fn lemma_insert_last_wins(es: Seq<(Seq<char>, SpecValue)>, k: Seq<char>, v: SpecValue)
    ensures
        lookup_entry(insert_entry(es, k, v), k) == Some(v),
{
    let i = find_key(es, k);
    lemma_find_key(es, k);
    if i >= 0 {
        let es2 = es.update(i, (k, v));
        lemma_find_key_at(es2, k, i);
    } else {
        let es2 = es.push((k, v));
        lemma_find_key_at(es2, k, es.len() as int);
    }
}

/// Inserting under `k` does not disturb what is stored under any other key.
pub proof fn lemma_insert_keeps_others(
    es: Seq<(Seq<char>, SpecValue)>,
    k: Seq<char>,
    v: SpecValue,
    k2: Seq<char>,
)
    requires
        k2 != k,
    ensures
        lookup_entry(insert_entry(es, k, v), k2) == lookup_entry(es, k2),
{
    let i = find_key(es, k);
    lemma_find_key(es, k);
    let j = find_key(es, k2);
    lemma_find_key(es, k2);
    if i >= 0 {
        let es2 = es.update(i, (k, v));
        if j >= 0 {
            assert(i != j);
            lemma_find_key_at(es2, k2, j);
        } else {
            lemma_find_key_none(es2, k2);
        }
    } else {
        let es2 = es.push((k, v));
        if j >= 0 {
            lemma_find_key_at(es2, k2, j);
        } else {
            lemma_find_key_none(es2, k2);
        }
    }
}

/// The iteration-order policy: inserting an existing key leaves the key
/// order untouched; inserting a new key appends it at the end.
pub proof fn lemma_insert_key_order(es: Seq<(Seq<char>, SpecValue)>, k: Seq<char>, v: SpecValue)
    ensures
        has_key(es, k) ==> entry_keys(insert_entry(es, k, v)) =~= entry_keys(es),
        !has_key(es, k) ==> entry_keys(insert_entry(es, k, v)) =~= entry_keys(es).push(k),
{
    lemma_find_key(es, k);
}

/// Folding a whole stream of key/value pairs into an entry list, one
/// insertion at a time, in stream order.
pub open spec fn insert_all(
    acc: Seq<(Seq<char>, SpecValue)>,
    ps: Seq<(Seq<char>, SpecValue)>,
) -> Seq<(Seq<char>, SpecValue)>
    decreases ps.len(),
{
    if ps.len() == 0 {
        acc
    } else {
        insert_all(insert_entry(acc, ps[0].0, ps[0].1), ps.drop_first())
    }
}

/// The value of the last pair of the stream carrying key `k`, if any.
pub open spec fn last_value_of(ps: Seq<(Seq<char>, SpecValue)>, k: Seq<char>) -> Option<
    SpecValue,
>
    decreases ps.len(),
{
    if ps.len() == 0 {
        None
    } else {
        let r = last_value_of(ps.drop_first(), k);
        if r is Some {
            r
        } else if ps[0].0 == k {
            Some(ps[0].1)
        } else {
            None
        }
    }
}

/// The keys of the stream not yet in `seen`, each at its first occurrence,
/// in stream order.
pub open spec fn first_new_keys(
    ps: Seq<(Seq<char>, SpecValue)>,
    seen: Seq<Seq<char>>,
) -> Seq<Seq<char>>
    decreases ps.len(),
{
    if ps.len() == 0 {
        Seq::empty()
    } else if seen.contains(ps[0].0) {
        first_new_keys(ps.drop_first(), seen)
    } else {
        seq![ps[0].0] + first_new_keys(ps.drop_first(), seen.push(ps[0].0))
    }
}

/// A key is present exactly when the key list contains it.
pub proof fn lemma_has_key_contains(es: Seq<(Seq<char>, SpecValue)>, k: Seq<char>)
    ensures
        has_key(es, k) == entry_keys(es).contains(k),
{
    lemma_find_key(es, k);
    if find_key(es, k) >= 0 {
        assert(entry_keys(es)[find_key(es, k)] == k);
    } else if entry_keys(es).contains(k) {
        let i = choose|i: int| 0 <= i < entry_keys(es).len() && entry_keys(es)[i] == k;
        assert(es[i].0 == k);
    }
}

/// Last write wins over a whole stream: after folding `ps` into `acc`,
/// each key maps to the value of its last occurrence in the stream, or to
/// what `acc` held when the stream never names it.
pub proof fn lemma_insert_all_last_wins(
    acc: Seq<(Seq<char>, SpecValue)>,
    ps: Seq<(Seq<char>, SpecValue)>,
    k: Seq<char>,
)
    ensures
        lookup_entry(insert_all(acc, ps), k) == match last_value_of(ps, k) {
            Some(v) => Some(v),
            None => lookup_entry(acc, k),
        },
    decreases ps.len(),
{
    if ps.len() > 0 {
        let acc2 = insert_entry(acc, ps[0].0, ps[0].1);
        lemma_insert_all_last_wins(acc2, ps.drop_first(), k);
        if last_value_of(ps.drop_first(), k) is None {
            if ps[0].0 == k {
                lemma_insert_last_wins(acc, ps[0].0, ps[0].1);
            } else {
                lemma_insert_keeps_others(acc, ps[0].0, ps[0].1, k);
            }
        }
    }
}

/// First position kept over a whole stream: after folding `ps` into `acc`,
/// the keys iterate as the keys of `acc` followed by the stream's new keys,
/// each at its first occurrence, in stream order.
pub proof fn lemma_insert_all_key_order(
    acc: Seq<(Seq<char>, SpecValue)>,
    ps: Seq<(Seq<char>, SpecValue)>,
)
    ensures
        entry_keys(insert_all(acc, ps)) == entry_keys(acc) + first_new_keys(
            ps,
            entry_keys(acc),
        ),
    decreases ps.len(),
{
    if ps.len() == 0 {
        assert(entry_keys(insert_all(acc, ps)) =~= entry_keys(acc) + first_new_keys(
            ps,
            entry_keys(acc),
        ));
    } else {
        let k0 = ps[0].0;
        let acc2 = insert_entry(acc, k0, ps[0].1);
        lemma_insert_all_key_order(acc2, ps.drop_first());
        lemma_insert_key_order(acc, k0, ps[0].1);
        lemma_has_key_contains(acc, k0);
        if has_key(acc, k0) {
            assert(entry_keys(acc2) == entry_keys(acc));
        } else {
            assert(entry_keys(acc2) == entry_keys(acc).push(k0));
            assert(entry_keys(acc) + (seq![k0] + first_new_keys(
                ps.drop_first(),
                entry_keys(acc).push(k0),
            )) =~= entry_keys(acc).push(k0) + first_new_keys(
                ps.drop_first(),
                entry_keys(acc).push(k0),
            ));
        }
    }
}

impl JsonObject {
    /// An empty ordered mapping.
    pub fn new() -> (r: Self)
        ensures
            r@ == Seq::<(Seq<char>, SpecValue)>::empty(),
    {
        let entries: Vec<(String, JsonExpr)> = Vec::new();
        proof {
            lemma_entries_view(entries@);
            assert(entries_view(entries@) =~= Seq::<(Seq<char>, SpecValue)>::empty());
        }
        JsonObject { entries }
    }

    /// How many entries the mapping holds.
    pub fn len(&self) -> (r: usize)
        ensures
            r == self@.len(),
    {
        proof {
            lemma_entries_view(self.entries@);
        }
        self.entries.len()
    }

    /// The key of the entry at position `i` in iteration order.
    pub fn key_at(&self, i: usize) -> (r: &String)
        requires
            i < self@.len(),
        ensures
            r@ == self@[i as int].0,
    {
        proof {
            lemma_entries_view(self.entries@);
        }
        &self.entries[i].0
    }

    /// The value of the entry at position `i` in iteration order.
    pub fn value_at(&self, i: usize) -> (r: &JsonExpr)
        requires
            i < self@.len(),
        ensures
            r@ == self@[i as int].1,
    {
        proof {
            lemma_entries_view(self.entries@);
        }
        &self.entries[i].1
    }

    /// The value stored under `key`, if any.
    pub fn get<'a>(&'a self, key: &str) -> (r: Option<&'a JsonExpr>)
        ensures
            match r {
                Some(v) => lookup_entry(self@, key@) == Some(v@),
                None => lookup_entry(self@, key@) is None,
            },
    {
        proof {
            lemma_entries_view(self.entries@);
        }
        let n = self.entries.len();
        let mut i: usize = 0;
        while i < n
            invariant
                i <= n,
                n == self.entries@.len(),
                forall|m: int| 0 <= m < i ==> (#[trigger] self.entries@[m]).0@ != key@,
            decreases n - i,
        {
            if str_eq(self.entries[i].0.as_str(), key) {
                proof {
                    lemma_entries_view(self.entries@);
                    lemma_find_key_at(self@, key@, i as int);
                }
                return Some(&self.entries[i].1);
            }
            i = i + 1;
        }
        proof {
            lemma_entries_view(self.entries@);
            lemma_find_key_none(self@, key@);
        }
        None
    }

    /// Inserts `v` under `k`: an existing key keeps its position and gets
    /// the new value; a new key is appended at the end.
    pub fn insert(&mut self, k: String, v: JsonExpr)
        ensures
            final(self)@ == insert_entry(old(self)@, k@, v@),
    {
        let n = self.entries.len();
        let mut i: usize = 0;
        while i < n
            invariant
                i <= n,
                n == self.entries@.len(),
                self.entries@ == old(self).entries@,
                forall|m: int| 0 <= m < i ==> (#[trigger] self.entries@[m]).0@ != k@,
            decreases n - i,
        {
            if str_eq(self.entries[i].0.as_str(), k.as_str()) {
                proof {
                    lemma_entries_view(self.entries@);
                    lemma_find_key_at(entries_view(self.entries@), k@, i as int);
                }
                let ghost before = self.entries@;
                self.entries[i] = (k, v);
                proof {
                    lemma_entries_view(before);
                    lemma_entries_view(self.entries@);
                    assert(entries_view(self.entries@) =~= insert_entry(
                        entries_view(before),
                        k@,
                        v@,
                    ));
                }
                return ;
            }
            i = i + 1;
        }
        proof {
            lemma_entries_view(self.entries@);
            lemma_find_key_none(entries_view(self.entries@), k@);
        }
        let ghost before = self.entries@;
        self.entries.push((k, v));
        proof {
            lemma_entries_view(before);
            lemma_entries_view(self.entries@);
            assert(entries_view(self.entries@) =~= insert_entry(entries_view(before), k@, v@));
        }
    }

    /// The keys in iteration order.
    pub fn keys(&self) -> (r: Vec<String>)
        ensures
            r@.len() == self@.len(),
            forall|i: int| 0 <= i < r@.len() ==> (#[trigger] r@[i])@ == self@[i as int].0,
    {
        proof {
            lemma_entries_view(self.entries@);
        }
        let n = self.entries.len();
        let mut out: Vec<String> = Vec::new();
        let mut i: usize = 0;
        while i < n
            invariant
                i <= n,
                n == self.entries@.len(),
                n == self@.len(),
                out@.len() == i,
                forall|m: int| 0 <= m < i ==> (#[trigger] out@[m])@ == self@[m].0,
                forall|m: int|
                    0 <= m < n ==> (#[trigger] self@[m]) == (
                    self.entries@[m].0@,
                    self.entries@[m].1@,
                ),
            decreases n - i,
        {
            out.push(self.entries[i].0.clone());
            i = i + 1;
        }
        out
    }
}

/// Insertion keeps keys unique.
pub proof fn lemma_insert_unique_keys(es: Seq<(Seq<char>, SpecValue)>, k: Seq<char>, v: SpecValue)
    requires
        unique_keys(es),
    ensures
        unique_keys(insert_entry(es, k, v)),
{
    let i = find_key(es, k);
    lemma_find_key(es, k);
    if i >= 0 {
        let es2 = es.update(i, (k, v));
        assert forall|a: int, b: int| 0 <= a < b < es2.len() implies (#[trigger] es2[a]).0 != (
        #[trigger] es2[b]).0 by {
            if a == i {
                if es[b].0 == k {
                    assert(es[i].0 == es[b].0);
                }
            } else if b == i {
                assert(es2[a].0 == es[a].0);
            }
        }
    }
}

} // verus!
