//! Attribute maps for directives.
//!
//! Entries are kept sorted by key, byte-wise (the order of `String`'s `Ord`),
//! with no key twice, so that iteration order is deterministic — matters for
//! snapshot tests and cache key stability.

use vstd::prelude::*;
use vstd::string::StringSliceAdditionalSpecFns;
use vstd::utf8::*;

use crate::json::json_clone;

verus! {

broadcast use vstd::seq_lib::group_seq_properties;

/// Byte-wise lexicographic order (the order of `[u8]` and of `String`).
pub open spec fn bytes_lt(a: Seq<u8>, b: Seq<u8>) -> bool
    decreases a.len(),
{
    if a.len() == 0 {
        b.len() > 0
    } else if b.len() == 0 {
        false
    } else if a[0] != b[0] {
        a[0] < b[0]
    } else {
        bytes_lt(a.drop_first(), b.drop_first())
    }
}

/// Key order: byte-wise order of the UTF-8 encodings.
pub open spec fn key_lt(a: Seq<char>, b: Seq<char>) -> bool {
    bytes_lt(encode_utf8(a), encode_utf8(b))
}

/// Keys strictly increasing, hence no key occurs twice.
pub open spec fn sorted_keys(e: Seq<(Seq<char>, serde_json::Value)>) -> bool {
    forall|i: int, j: int| 0 <= i < j < e.len() ==> key_lt(#[trigger] e[i].0, #[trigger] e[j].0)
}

/// The entries after setting `k` to `v` in the sorted entries `e`: an entry
/// with key `k` is replaced in place, otherwise the new entry goes before the
/// first larger key.
pub open spec fn insert_sorted(
    e: Seq<(Seq<char>, serde_json::Value)>,
    k: Seq<char>,
    v: serde_json::Value,
) -> Seq<(Seq<char>, serde_json::Value)>
    decreases e.len(),
{
    if e.len() == 0 {
        seq![(k, v)]
    } else if e[0].0 == k {
        seq![(k, v)] + e.drop_first()
    } else if key_lt(k, e[0].0) {
        seq![(k, v)] + e
    } else {
        seq![e[0]] + insert_sorted(e.drop_first(), k, v)
    }
}

/// The value stored under `k`, if any.
pub open spec fn lookup(e: Seq<(Seq<char>, serde_json::Value)>, k: Seq<char>) -> Option<
    serde_json::Value,
>
    decreases e.len(),
{
    if e.len() == 0 {
        None
    } else if e[0].0 == k {
        Some(e[0].1)
    } else {
        lookup(e.drop_first(), k)
    }
}

pub proof fn lemma_bytes_lt_irrefl(a: Seq<u8>)
    ensures
        !bytes_lt(a, a),
    decreases a.len(),
{
    if a.len() > 0 {
        lemma_bytes_lt_irrefl(a.drop_first());
    }
}

pub proof fn lemma_bytes_lt_trans(a: Seq<u8>, b: Seq<u8>, c: Seq<u8>)
    requires
        bytes_lt(a, b),
        bytes_lt(b, c),
    ensures
        bytes_lt(a, c),
    decreases a.len(),
{
    if a.len() > 0 && b.len() > 0 && c.len() > 0 && a[0] == b[0] && b[0] == c[0] {
        lemma_bytes_lt_trans(a.drop_first(), b.drop_first(), c.drop_first());
    }
}

pub proof fn lemma_bytes_lt_total(a: Seq<u8>, b: Seq<u8>)
    ensures
        a == b || bytes_lt(a, b) || bytes_lt(b, a),
    decreases a.len(),
{
    if a.len() > 0 && b.len() > 0 && a[0] == b[0] {
        lemma_bytes_lt_total(a.drop_first(), b.drop_first());
        if a.drop_first() == b.drop_first() {
            assert(a =~= seq![a[0]] + a.drop_first());
            assert(b =~= seq![b[0]] + b.drop_first());
        }
    } else if a.len() == 0 && b.len() == 0 {
        assert(a =~= b);
    }
}

pub proof fn lemma_key_lt_facts(a: Seq<char>, b: Seq<char>, c: Seq<char>)
    ensures
        !key_lt(a, a),
        key_lt(a, b) && key_lt(b, c) ==> key_lt(a, c),
        a == b || key_lt(a, b) || key_lt(b, a),
        key_lt(a, b) ==> !key_lt(b, a),
{
    lemma_bytes_lt_irrefl(encode_utf8(a));
    if key_lt(a, b) && key_lt(b, c) {
        lemma_bytes_lt_trans(encode_utf8(a), encode_utf8(b), encode_utf8(c));
    }
    lemma_bytes_lt_total(encode_utf8(a), encode_utf8(b));
    encode_utf8_decode_utf8(a);
    encode_utf8_decode_utf8(b);
    if key_lt(a, b) && key_lt(b, a) {
        lemma_bytes_lt_trans(encode_utf8(a), encode_utf8(b), encode_utf8(a));
        lemma_bytes_lt_irrefl(encode_utf8(a));
    }
}

/// Where `k` goes in sorted entries: all keys before `p` are smaller, and the
/// key at `p`, if any, is not.
#[verifier::rlimit(40)]
#[verifier::spinoff_prover]
pub proof fn lemma_insert_at(
    e: Seq<(Seq<char>, serde_json::Value)>,
    k: Seq<char>,
    v: serde_json::Value,
    p: int,
)
    requires
        sorted_keys(e),
        0 <= p <= e.len(),
        forall|i: int| 0 <= i < p ==> key_lt(#[trigger] e[i].0, k),
        p < e.len() ==> !key_lt(e[p].0, k),
    ensures
        insert_sorted(e, k, v) == (if p < e.len() && e[p].0 == k {
            e.take(p) + seq![(k, v)] + e.skip(p + 1)
        } else {
            e.take(p) + seq![(k, v)] + e.skip(p)
        }),
        sorted_keys(insert_sorted(e, k, v)),
    decreases p,
{
    let r = insert_sorted(e, k, v);
    if p == 0 {
        if e.len() > 0 {
            lemma_key_lt_facts(k, e[0].0, e[0].0);
            if e[0].0 != k {
                assert(key_lt(k, e[0].0));
                assert forall|i: int, j: int| 0 <= i < j < r.len() implies key_lt(
                    #[trigger] r[i].0,
                    #[trigger] r[j].0,
                ) by {
                    if i == 0 {
                        lemma_key_lt_facts(k, e[0].0, e[j - 1].0);
                    }
                }
            } else {
                assert forall|i: int, j: int| 0 <= i < j < r.len() implies key_lt(
                    #[trigger] r[i].0,
                    #[trigger] r[j].0,
                ) by {
                    assert(r[i].0 == e[i].0);
                }
            }
            if e[0].0 == k {
                assert(e.take(0) + seq![(k, v)] + e.skip(1) =~= r);
            } else {
                assert(e.take(0) + seq![(k, v)] + e.skip(0) =~= seq![(k, v)] + e);
            }
        } else {
            assert(e.take(0) + seq![(k, v)] + e.skip(0) =~= seq![(k, v)]);
        }
    } else {
        let t = e.drop_first();
        assert forall|i: int, j: int| 0 <= i < j < t.len() implies key_lt(
            #[trigger] t[i].0,
            #[trigger] t[j].0,
        ) by {
            assert(t[i] == e[i + 1] && t[j] == e[j + 1]);
        }
        assert forall|i: int| 0 <= i < p - 1 implies key_lt(#[trigger] t[i].0, k) by {
            assert(t[i] == e[i + 1]);
        }
        lemma_insert_at(t, k, v, p - 1);
        lemma_key_lt_facts(e[0].0, k, k);
        assert(e[0].0 != k);
        assert(!key_lt(k, e[0].0));
        let rt = insert_sorted(t, k, v);
        assert(r == seq![e[0]] + rt);
        if p < e.len() && e[p].0 == k {
            assert(e.take(p) + seq![(k, v)] + e.skip(p + 1) =~= seq![e[0]] + (t.take(p - 1) + seq![
                (k, v),
            ] + t.skip(p)));
        } else {
            assert(e.take(p) + seq![(k, v)] + e.skip(p) =~= seq![e[0]] + (t.take(p - 1) + seq![
                (k, v),
            ] + t.skip(p - 1)));
        }
        assert forall|i: int, j: int| 0 <= i < j < r.len() implies key_lt(
            #[trigger] r[i].0,
            #[trigger] r[j].0,
        ) by {
            if i == 0 {
                assert(r[0] == e[0]);
                assert(rt[j - 1] == r[j]);
                // rt[j-1] is either k or some key of t, all larger than e[0]
                if rt[j - 1].0 == k {
                    assert(key_lt(e[0].0, k));
                } else {
                    if p < e.len() && e[p].0 == k {
                        if j - 1 < p - 1 {
                            assert(rt[j - 1] == t[j - 1]);
                        } else {
                            assert(rt[j - 1] == t[j - 1]);
                        }
                        assert(key_lt(e[0].0, e[j].0));
                    } else {
                        if j - 1 < p - 1 {
                            assert(rt[j - 1] == t[j - 1]);
                            assert(key_lt(e[0].0, e[j].0));
                        } else {
                            assert(rt[j - 1] == t[j - 2]);
                            assert(key_lt(e[0].0, e[j - 1].0));
                        }
                    }
                }
            } else {
                assert(r[i] == rt[i - 1] && r[j] == rt[j - 1]);
            }
        }
    }
}

pub proof fn lemma_lookup_index(e: Seq<(Seq<char>, serde_json::Value)>, k: Seq<char>, p: int)
    requires
        sorted_keys(e),
        0 <= p < e.len(),
        e[p].0 == k,
    ensures
        lookup(e, k) == Some(e[p].1),
    decreases p,
{
    if p > 0 {
        lemma_key_lt_facts(e[0].0, e[p].0, e[p].0);
        let t = e.drop_first();
        assert forall|i: int, j: int| 0 <= i < j < t.len() implies key_lt(
            #[trigger] t[i].0,
            #[trigger] t[j].0,
        ) by {
            assert(t[i] == e[i + 1] && t[j] == e[j + 1]);
        }
        lemma_lookup_index(t, k, p - 1);
    }
}

pub proof fn lemma_lookup_absent(e: Seq<(Seq<char>, serde_json::Value)>, k: Seq<char>)
    requires
        forall|i: int| 0 <= i < e.len() ==> #[trigger] e[i].0 != k,
    ensures
        lookup(e, k) is None,
    decreases e.len(),
{
    if e.len() > 0 {
        let t = e.drop_first();
        assert forall|i: int| 0 <= i < t.len() implies #[trigger] t[i].0 != k by {
            assert(t[i] == e[i + 1]);
        }
        lemma_lookup_absent(t, k);
    }
}

/// The entries after inserting the pairs in order (a later pair for the same
/// key replaces an earlier one).
pub open spec fn build_attrs(pairs: Seq<(Seq<char>, serde_json::Value)>) -> Seq<
    (Seq<char>, serde_json::Value),
>
    decreases pairs.len(),
{
    if pairs.len() == 0 {
        Seq::empty()
    } else {
        insert_sorted(build_attrs(pairs.drop_last()), pairs.last().0, pairs.last().1)
    }
}

/// Ordered map of attribute name to JSON-typed value.
#[derive(Debug)]
pub struct AttributeMap(Vec<(String, serde_json::Value)>);

impl View for AttributeMap {
    type V = Seq<(Seq<char>, serde_json::Value)>;

    closed spec fn view(&self) -> Seq<(Seq<char>, serde_json::Value)> {
        self.0@.map_values(|e: (String, serde_json::Value)| (e.0@, e.1))
    }
}

/// Byte-wise comparison of two strings: negative, zero or positive as `a` is
/// below, equal to or above `b`.
pub fn key_order(a: &str, b: &str) -> (r: i8)
    ensures
        r < 0 <==> key_lt(a@, b@),
        r == 0 <==> a@ == b@,
        r > 0 <==> key_lt(b@, a@),
{
    let x = a.as_bytes();
    let y = b.as_bytes();
    let ghost ax = a.spec_bytes();
    let ghost by = b.spec_bytes();
    proof {
        lemma_key_lt_facts(a@, b@, b@);
        encode_utf8_decode_utf8(a@);
        encode_utf8_decode_utf8(b@);
    }
    let mut i: usize = 0;
    while i < x.len() && i < y.len()
        invariant
            x@ == ax,
            y@ == by,
            ax == a.spec_bytes(),
            by == b.spec_bytes(),
            0 <= i <= x.len(),
            i <= y.len(),
            ax.take(i as int) == by.take(i as int),
            bytes_lt(ax, by) == bytes_lt(ax.skip(i as int), by.skip(i as int)),
            bytes_lt(by, ax) == bytes_lt(by.skip(i as int), ax.skip(i as int)),
        decreases x.len() - i,
    {
        if x[i] != y[i] {
            proof {
                let sa = ax.skip(i as int);
                let sb = by.skip(i as int);
                assert(sa[0] == x[i as int]);
                assert(sb[0] == y[i as int]);
                assert(bytes_lt(sa, sb) == (x[i as int] < y[i as int]));
                assert(bytes_lt(sb, sa) == (y[i as int] < x[i as int]));
                assert(ax != by) by {
                    assert(ax[i as int] != by[i as int]);
                }
                assert(a@ != b@);
            }
            if x[i] < y[i] {
                return -1;
            } else {
                return 1;
            }
        }
        proof {
            assert(ax.skip(i as int).drop_first() =~= ax.skip(i + 1));
            assert(by.skip(i as int).drop_first() =~= by.skip(i + 1));
            assert(ax.take(i + 1) =~= ax.take(i as int).push(ax[i as int]));
            assert(by.take(i + 1) =~= by.take(i as int).push(by[i as int]));
        }
        i = i + 1;
    }
    if x.len() == y.len() {
        proof {
            assert(ax =~= ax.take(i as int));
            assert(by =~= by.take(i as int));
        }
        0
    } else if x.len() < y.len() {
        proof {
            assert(ax.skip(i as int).len() == 0);
            assert(ax =~= ax.take(i as int));
        }
        -1
    } else {
        proof {
            assert(by.skip(i as int).len() == 0);
            assert(by =~= by.take(i as int));
        }
        1
    }
}

impl AttributeMap {
    #[verifier::type_invariant]
    closed spec fn inv(self) -> bool {
        sorted_keys(self@)
    }

    pub fn new() -> (r: Self)
        ensures
            r@ == Seq::<(Seq<char>, serde_json::Value)>::empty(),
    {
        let r = AttributeMap(Vec::new());
        proof {
            assert(r@ =~= Seq::<(Seq<char>, serde_json::Value)>::empty());
        }
        r
    }

    /// Set `k` to `v`, replacing a previous value of `k`.
    pub fn insert(&mut self, k: String, v: serde_json::Value)
        ensures
            final(self)@ == insert_sorted(old(self)@, k@, v),
            sorted_keys(final(self)@),
    {
        proof {
            use_type_invariant(&*self);
        }
        let ghost e = self@;
        let n = self.0.len();
        let mut p: usize = 0;
        while p < n && key_order(self.0[p].0.as_str(), k.as_str()) < 0
            invariant
                n == self.0.len(),
                e == self@,
                sorted_keys(e),
                0 <= p <= n,
                forall|i: int| 0 <= i < p ==> key_lt(#[trigger] e[i].0, k@),
            decreases n - p,
        {
            proof {
                assert(e[p as int].0 == self.0@[p as int].0@);
            }
            p = p + 1;
        }
        let found = p < n && key_order(self.0[p].0.as_str(), k.as_str()) == 0;
        proof {
            if p < n {
                assert(e[p as int].0 == self.0@[p as int].0@);
            }
        }
        proof {
            lemma_insert_at(e, k@, v, p as int);
        }
        let ghost kv = k@;
        if p < n && found {
            let mut entries: Vec<(String, serde_json::Value)> = Vec::new();
            std::mem::swap(&mut entries, &mut self.0);
            entries.set(p, (k, v));
            proof {
                assert(entries@.map_values(|e: (String, serde_json::Value)| (e.0@, e.1)) =~= e.take(
                    p as int,
                ) + seq![(kv, v)] + e.skip(p + 1));
            }
            self.0 = entries;
        } else {
            let mut entries: Vec<(String, serde_json::Value)> = Vec::new();
            std::mem::swap(&mut entries, &mut self.0);
            entries.insert(p, (k, v));
            proof {
                assert(entries@.map_values(|e: (String, serde_json::Value)| (e.0@, e.1)) =~= e.take(
                    p as int,
                ) + seq![(kv, v)] + e.skip(p as int));
            }
            self.0 = entries;
        }
    }

    pub fn get(&self, k: &str) -> (r: Option<&serde_json::Value>)
        ensures
            match r {
                Some(v) => lookup(self@, k@) == Some(*v),
                None => lookup(self@, k@) is None,
            },
    {
        proof {
            use_type_invariant(self);
        }
        let n = self.0.len();
        let mut i: usize = 0;
        while i < n
            invariant
                n == self.0.len(),
                0 <= i <= n,
                sorted_keys(self@),
                forall|j: int| 0 <= j < i ==> #[trigger] self@[j].0 != k@,
            decreases n - i,
        {
            if key_order(self.0[i].0.as_str(), k) == 0 {
                proof {
                    lemma_lookup_index(self@, k@, i as int);
                }
                return Some(&self.0[i].1);
            }
            i = i + 1;
        }
        proof {
            lemma_lookup_absent(self@, k@);
        }
        None
    }

    pub fn len(&self) -> (r: usize)
        ensures
            r == self@.len(),
    {
        self.0.len()
    }

    pub fn is_empty(&self) -> (r: bool)
        ensures
            r == (self@.len() == 0),
    {
        self.0.len() == 0
    }

    /// The entries in key order.
    pub fn iter(&self) -> (r: &[(String, serde_json::Value)])
        ensures
            r@.map_values(|e: (String, serde_json::Value)| (e.0@, e.1)) == self@,
    {
        self.0.as_slice()
    }
}

impl AttributeMap {
    /// The map holding the pairs, inserted in order.
    pub fn from_pairs(pairs: Vec<(String, serde_json::Value)>) -> (r: Self)
        ensures
            r@ == build_attrs(pairs@.map_values(|p: (String, serde_json::Value)| (p.0@, p.1))),
    {
        let ghost pm = pairs@.map_values(|p: (String, serde_json::Value)| (p.0@, p.1));
        let mut m = AttributeMap::new();
        let mut rest = pairs;
        let ghost total = pm.len();
        proof {
            assert(pm.take(0) =~= Seq::<(Seq<char>, serde_json::Value)>::empty());
        }
        while rest.len() > 0
            invariant
                total == pm.len(),
                rest@.len() <= total,
                forall|j: int|
                    0 <= j < rest@.len() ==> ((#[trigger] rest@[j]).0@, rest@[j].1) == pm[total
                        - rest@.len() + j],
                m@ == build_attrs(pm.take(total - rest@.len())),
            decreases rest@.len(),
        {
            let ghost k = total - rest@.len();
            let ghost first = rest@[0];
            let ghost before = rest@;
            assert((first.0@, first.1) == pm[k]);
            let (key, value) = rest.remove(0);
            proof {
                assert(pm.take(k + 1).drop_last() =~= pm.take(k));
                assert(pm.take(k + 1).last() == pm[k]);
                assert forall|j: int| 0 <= j < rest@.len() implies ((#[trigger] rest@[j]).0@,
                    rest@[j].1) == pm[total - rest@.len() + j] by {
                    assert(rest@[j] == before[j + 1]);
                }
            }
            m.insert(key, value);
        }
        proof {
            assert(pm.take(total as int) =~= pm);
        }
        m
    }
}

impl Clone for AttributeMap {
    fn clone(&self) -> (r: Self)
        ensures
            r@ == self@,
    {
        proof {
            use_type_invariant(self);
        }
        let n = self.0.len();
        let mut out: Vec<(String, serde_json::Value)> = Vec::new();
        let mut i: usize = 0;
        while i < n
            invariant
                n == self.0.len(),
                0 <= i <= n,
                out@.len() == i,
                forall|j: int|
                    0 <= j < i ==> (#[trigger] out@[j]).0@ == self.0@[j].0@ && out@[j].1
                        == self.0@[j].1,
            decreases n - i,
        {
            let k = self.0[i].0.clone();
            let v = json_clone(&self.0[i].1);
            out.push((k, v));
            i = i + 1;
        }
        proof {
            assert(out@.map_values(|e: (String, serde_json::Value)| (e.0@, e.1)) =~= self@);
        }
        AttributeMap(out)
    }
}

impl Default for AttributeMap {
    fn default() -> (r: Self)
        ensures
            r@ == Seq::<(Seq<char>, serde_json::Value)>::empty(),
    {
        AttributeMap::new()
    }
}


/// Reading a key back after setting it gives the value set; every other key
/// keeps its value.
pub proof fn law_lookup_after_insert(
    e: Seq<(Seq<char>, serde_json::Value)>,
    k: Seq<char>,
    v: serde_json::Value,
    other: Seq<char>,
)
    ensures
        lookup(insert_sorted(e, k, v), k) == Some(v),
        other != k ==> lookup(insert_sorted(e, k, v), other) == lookup(e, other),
    decreases e.len(),
{
    let r = insert_sorted(e, k, v);
    if e.len() == 0 {
        assert(r.drop_first() =~= Seq::<(Seq<char>, serde_json::Value)>::empty());
    } else if e[0].0 == k {
        assert(r.drop_first() =~= e.drop_first());
    } else if key_lt(k, e[0].0) {
        assert(r.drop_first() =~= e);
    } else {
        law_lookup_after_insert(e.drop_first(), k, v, other);
        assert(r.drop_first() =~= insert_sorted(e.drop_first(), k, v));
    }
}


/// Building a map from pairs, the last pair for a key decides its value.
pub proof fn law_last_pair_wins(pairs: Seq<(Seq<char>, serde_json::Value)>, k: Seq<char>, v: serde_json::Value)
    ensures
        lookup(build_attrs(pairs.push((k, v))), k) == Some(v),
{
    assert(pairs.push((k, v)).drop_last() =~= pairs);
    law_lookup_after_insert(build_attrs(pairs), k, v, k);
}

} // verus!
