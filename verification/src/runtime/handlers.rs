//! Bookkeeping of a script runtime's handlers.
//!
//! Scripts register directive handlers by name and link resolvers by
//! namespace. Each registration records the script that made it, so that
//! unloading a script reverses only what that script registered. A later
//! registration under the same name replaces the earlier one, whose key is
//! handed back for release. The handler itself is opaque here: a key `K` that
//! the runtime uses to find its function.

use vstd::prelude::*;

use super::{HandlerDescriptor, RuntimeError, ScriptId};
use crate::parser::tree::str_is;
use crate::text::{dec, u64_to_string};

verus! {

broadcast use vstd::seq_lib::group_seq_properties;

/// One registered handler.
pub struct HandlerEntry<K> {
    pub name: String,
    pub key: K,
    pub script: ScriptId,
}

/// The names of the entries, in order.
pub open spec fn entry_names<K>(s: Seq<HandlerEntry<K>>) -> Seq<Seq<char>> {
    s.map_values(|e: HandlerEntry<K>| e.name@)
}

/// No name occurs twice.
pub open spec fn unique_names(ns: Seq<Seq<char>>) -> bool {
    forall|i: int, j: int| 0 <= i < j < ns.len() ==> #[trigger] ns[i] != #[trigger] ns[j]
}

/// The first position holding `name`.
pub open spec fn index_of_name(ns: Seq<Seq<char>>, name: Seq<char>) -> Option<int>
    decreases ns.len(),
{
    if ns.len() == 0 {
        None
    } else if ns[0] == name {
        Some(0)
    } else {
        match index_of_name(ns.drop_first(), name) {
            Some(i) => Some(i + 1),
            None => None,
        }
    }
}

pub proof fn lemma_index_of_name(ns: Seq<Seq<char>>, name: Seq<char>)
    ensures
        match index_of_name(ns, name) {
            Some(i) => 0 <= i < ns.len() && ns[i] == name && forall|j: int|
                0 <= j < i ==> #[trigger] ns[j] != name,
            None => forall|j: int| 0 <= j < ns.len() ==> #[trigger] ns[j] != name,
        },
    decreases ns.len(),
{
    if ns.len() > 0 && ns[0] != name {
        lemma_index_of_name(ns.drop_first(), name);
        match index_of_name(ns.drop_first(), name) {
            Some(i) => {
                assert forall|j: int| 0 <= j < i + 1 implies #[trigger] ns[j] != name by {
                    if j > 0 {
                        assert(ns[j] == ns.drop_first()[j - 1]);
                    }
                }
            },
            None => {
                assert forall|j: int| 0 <= j < ns.len() implies #[trigger] ns[j] != name by {
                    if j > 0 {
                        assert(ns[j] == ns.drop_first()[j - 1]);
                    }
                }
            },
        }
    }
}

/// With unique names, a name at position `i` is found there.
proof fn lemma_index_unique(ns: Seq<Seq<char>>, i: int)
    requires
        unique_names(ns),
        0 <= i < ns.len(),
    ensures
        index_of_name(ns, ns[i]) == Some(i),
{
    lemma_index_of_name(ns, ns[i]);
}

/// Removing an entry or appending an unused name keeps the names unique.
proof fn lemma_unique_remove_push<K>(s: Seq<HandlerEntry<K>>, i: int, e: HandlerEntry<K>)
    requires
        unique_names(entry_names(s)),
        0 <= i < s.len(),
    ensures
        unique_names(entry_names(s.remove(i))),
        (forall|j: int| 0 <= j < s.len() ==> #[trigger] s[j].name@ != e.name@ || j == i)
            ==> unique_names(entry_names(s.remove(i).push(e))),
{
    let r = s.remove(i);
    assert forall|a: int, b: int| 0 <= a < b < r.len() implies #[trigger] entry_names(r)[a]
        != #[trigger] entry_names(r)[b] by {
        let a0 = if a < i {
            a
        } else {
            a + 1
        };
        let b0 = if b < i {
            b
        } else {
            b + 1
        };
        assert(entry_names(r)[a] == entry_names(s)[a0]);
        assert(entry_names(r)[b] == entry_names(s)[b0]);
    }
    if forall|j: int| 0 <= j < s.len() ==> #[trigger] s[j].name@ != e.name@ || j == i {
        let p = r.push(e);
        assert forall|a: int, b: int| 0 <= a < b < p.len() implies #[trigger] entry_names(p)[a]
            != #[trigger] entry_names(p)[b] by {
            if b == p.len() - 1 {
                let a0 = if a < i {
                    a
                } else {
                    a + 1
                };
                assert(p[a] == s[a0]);
            } else {
                assert(entry_names(p)[a] == entry_names(r)[a]);
                assert(entry_names(p)[b] == entry_names(r)[b]);
            }
        }
    }
}

proof fn lemma_unique_push<K>(s: Seq<HandlerEntry<K>>, e: HandlerEntry<K>)
    requires
        unique_names(entry_names(s)),
        forall|j: int| 0 <= j < s.len() ==> #[trigger] s[j].name@ != e.name@,
    ensures
        unique_names(entry_names(s.push(e))),
{
    let p = s.push(e);
    assert forall|a: int, b: int| 0 <= a < b < p.len() implies #[trigger] entry_names(p)[a]
        != #[trigger] entry_names(p)[b] by {
        assert(p[a] == s[a]);
        assert(entry_names(s)[a] == s[a].name@);
        if b < s.len() {
            assert(p[b] == s[b]);
            assert(entry_names(s)[b] == s[b].name@);
        } else {
            assert(p[b] == e);
        }
    }
}

/// The entries after putting `e`: an entry of the same name leaves its place,
/// and `e` goes last.
pub open spec fn put_spec<K>(s: Seq<HandlerEntry<K>>, e: HandlerEntry<K>) -> Seq<HandlerEntry<K>> {
    match index_of_name(entry_names(s), e.name@) {
        Some(i) => s.remove(i).push(e),
        None => s.push(e),
    }
}

/// The entries without the one named `name`.
pub open spec fn take_spec<K>(s: Seq<HandlerEntry<K>>, name: Seq<char>) -> Seq<HandlerEntry<K>> {
    match index_of_name(entry_names(s), name) {
        Some(i) => s.remove(i),
        None => s,
    }
}

/// A list of handlers in which no name occurs twice.
pub struct HandlerList<K> {
    entries: Vec<HandlerEntry<K>>,
}

impl<K> View for HandlerList<K> {
    type V = Seq<HandlerEntry<K>>;

    closed spec fn view(&self) -> Seq<HandlerEntry<K>> {
        self.entries@
    }
}

impl<K> HandlerList<K> {
    #[verifier::type_invariant]
    closed spec fn inv(self) -> bool {
        unique_names(entry_names(self.entries@))
    }

    pub fn new() -> (r: Self)
        ensures
            r@ == Seq::<HandlerEntry<K>>::empty(),
            unique_names(entry_names(r@)),
    {
        HandlerList { entries: Vec::new() }
    }

    fn position(&self, name: &str) -> (r: Option<usize>)
        ensures
            match r {
                Some(i) => index_of_name(entry_names(self@), name@) == Some(i as int) && i
                    < self@.len(),
                None => index_of_name(entry_names(self@), name@) is None,
            },
    {
        proof {
            lemma_index_of_name(entry_names(self@), name@);
        }
        let mut i: usize = 0;
        while i < self.entries.len()
            invariant
                i <= self.entries@.len(),
                forall|j: int| 0 <= j < i ==> #[trigger] self.entries@[j].name@ != name@,
            decreases self.entries.len() - i,
        {
            if str_is(self.entries[i].name.as_str(), name) {
                proof {
                    lemma_index_of_name(entry_names(self@), name@);
                    assert(entry_names(self@)[i as int] == name@);
                    assert forall|j: int| 0 <= j < i implies #[trigger] entry_names(self@)[j]
                        != name@ by {
                        assert(entry_names(self@)[j] == self.entries@[j].name@);
                    }
                    match index_of_name(entry_names(self@), name@) {
                        Some(k) => {
                            if k < i {
                                assert(entry_names(self@)[k] != name@);
                            } else if k > i {
                                assert(entry_names(self@)[i as int] != name@);
                            }
                        },
                        None => {
                            assert(entry_names(self@)[i as int] != name@);
                        },
                    }
                }
                return Some(i);
            }
            i = i + 1;
        }
        proof {
            assert forall|j: int| 0 <= j < self@.len() implies #[trigger] entry_names(self@)[j]
                != name@ by {
                assert(entry_names(self@)[j] == self.entries@[j].name@);
            }
        }
        None
    }

    /// The handler registered under `name`.
    pub fn find(&self, name: &str) -> (r: Option<&HandlerEntry<K>>)
        ensures
            match index_of_name(entry_names(self@), name@) {
                Some(i) => r == Some(&self@[i]),
                None => r is None,
            },
    {
        match self.position(name) {
            Some(i) => Some(&self.entries[i]),
            None => None,
        }
    }

    /// Remove the handler registered under `name`, if any, and give it back.
    pub fn take(&mut self, name: &str) -> (r: Option<HandlerEntry<K>>)
        ensures
            final(self)@ == take_spec(old(self)@, name@),
            unique_names(entry_names(final(self)@)),
            match index_of_name(entry_names(old(self)@), name@) {
                Some(i) => r == Some(old(self)@[i]),
                None => r is None,
            },
    {
        proof {
            use_type_invariant(&*self);
        }
        match self.position(name) {
            Some(i) => {
                let ghost s = self.entries@;
                proof {
                    lemma_unique_remove_push(s, i as int, s[i as int]);
                }
                let mut entries: Vec<HandlerEntry<K>> = Vec::new();
                std::mem::swap(&mut entries, &mut self.entries);
                let e = entries.remove(i);
                self.entries = entries;
                Some(e)
            },
            None => {
                proof {
                    assert(self.entries@ == self@);
                }
                None
            },
        }
    }

    /// Register `e`, replacing (and giving back) the handler of the same name.
    pub fn put(&mut self, e: HandlerEntry<K>) -> (r: Option<HandlerEntry<K>>)
        ensures
            final(self)@ == put_spec(old(self)@, e),
            unique_names(entry_names(final(self)@)),
            match index_of_name(entry_names(old(self)@), e.name@) {
                Some(i) => r == Some(old(self)@[i]),
                None => r is None,
            },
    {
        proof {
            use_type_invariant(&*self);
            lemma_index_of_name(entry_names(self@), e.name@);
        }
        let ghost s = self.entries@;
        let pos = self.position(e.name.as_str());
        let mut entries: Vec<HandlerEntry<K>> = Vec::new();
        std::mem::swap(&mut entries, &mut self.entries);
        let old_entry = match pos {
            Some(i) => {
                proof {
                    assert forall|j: int| 0 <= j < s.len() implies #[trigger] s[j].name@
                        != e.name@ || j == i by {
                        if j != i && s[j].name@ == e.name@ {
                            assert(entry_names(s)[j] == entry_names(s)[i as int]);
                        }
                    }
                    lemma_unique_remove_push(s, i as int, e);
                }
                Some(entries.remove(i))
            },
            None => {
                proof {
                    assert forall|j: int| 0 <= j < s.len() implies #[trigger] s[j].name@
                        != e.name@ by {
                        assert(entry_names(s)[j] == s[j].name@);
                    }
                    lemma_unique_push(s, e);
                }
                None
            },
        };
        entries.push(e);
        self.entries = entries;
        old_entry
    }

    /// A descriptor of each handler, in order.
    pub fn descriptors(&self) -> (r: Vec<HandlerDescriptor>)
        ensures
            r@.len() == self@.len(),
            forall|i: int|
                0 <= i < r@.len() ==> (#[trigger] r@[i]).name@ == self@[i].name@ && r@[i].script
                    == self@[i].script && r@[i].kind is None,
    {
        let mut out: Vec<HandlerDescriptor> = Vec::new();
        let mut i: usize = 0;
        while i < self.entries.len()
            invariant
                i <= self.entries@.len(),
                out@.len() == i,
                forall|j: int|
                    0 <= j < i ==> (#[trigger] out@[j]).name@ == self.entries@[j].name@
                        && out@[j].script == self.entries@[j].script && out@[j].kind is None,
            decreases self.entries.len() - i,
        {
            let e = &self.entries[i];
            out.push(HandlerDescriptor { name: e.name.clone(), script: e.script, kind: None });
            i = i + 1;
        }
        out
    }
}


// ---------------------------------------------------------------------------
// Laws of a handler list
// ---------------------------------------------------------------------------

/// After putting `e`, its name finds `e`; every other name finds the entry it
/// found before.
pub proof fn law_find_after_put<K>(s: Seq<HandlerEntry<K>>, e: HandlerEntry<K>, other: Seq<char>)
    requires
        unique_names(entry_names(s)),
    ensures
        unique_names(entry_names(put_spec(s, e))),
        index_of_name(entry_names(put_spec(s, e)), e.name@) matches Some(i) && put_spec(s, e)[i]
            == e,
        other != e.name@ ==> match (
            index_of_name(entry_names(s), other),
            index_of_name(entry_names(put_spec(s, e)), other),
        ) {
            (Some(i), Some(j)) => s[i] == put_spec(s, e)[j],
            (None, None) => true,
            _ => false,
        },
{
    let ns = entry_names(s);
    lemma_index_of_name(ns, e.name@);
    lemma_index_of_name(ns, other);
    let p = put_spec(s, e);
    match index_of_name(ns, e.name@) {
        Some(i) => {
            assert forall|j: int| 0 <= j < s.len() implies #[trigger] s[j].name@ != e.name@ || j
                == i by {
                if j != i && s[j].name@ == e.name@ {
                    assert(ns[j] == ns[i]);
                }
            }
            lemma_unique_remove_push(s, i, e);
        },
        None => {
            assert forall|j: int| 0 <= j < s.len() implies #[trigger] s[j].name@ != e.name@ by {
                assert(ns[j] == s[j].name@);
            }
            lemma_unique_push(s, e);
        },
    }
    let pn = entry_names(p);
    assert(pn[p.len() - 1] == e.name@);
    lemma_index_unique(pn, p.len() - 1);
    if other != e.name@ {
        lemma_index_of_name(pn, other);
        match index_of_name(ns, other) {
            Some(i) => {
                let j = match index_of_name(ns, e.name@) {
                    Some(x) => if i < x {
                        i
                    } else {
                        i - 1
                    },
                    None => i,
                };
                assert(p[j] == s[i]);
                assert(pn[j] == other);
                lemma_index_unique(pn, j);
            },
            None => {
                assert forall|j: int| 0 <= j < pn.len() implies #[trigger] pn[j] != other by {
                    if j < p.len() - 1 {
                        let j0 = match index_of_name(ns, e.name@) {
                            Some(x) => if j < x {
                                j
                            } else {
                                j + 1
                            },
                            None => j,
                        };
                        assert(p[j] == s[j0]);
                        assert(ns[j0] == s[j0].name@);
                    }
                }
                if let Some(k) = index_of_name(pn, other) {
                    assert(pn[k] == other);
                }
            },
        }
    }
}

/// Taking, in order, each entry named in `names` that `id` registered: what
/// is left, and the keys of the taken entries. An entry that another script
/// registered under such a name since stays.
pub open spec fn unload_fold<K>(s: Seq<HandlerEntry<K>>, names: Seq<Seq<char>>, id: ScriptId) -> (
    Seq<HandlerEntry<K>>,
    Seq<K>,
)
    decreases names.len(),
{
    if names.len() == 0 {
        (s, Seq::empty())
    } else {
        let (s1, rel) = unload_fold(s, names.drop_last(), id);
        match index_of_name(entry_names(s1), names.last()) {
            Some(i) => if s1[i].script == id {
                (s1.remove(i), rel.push(s1[i].key))
            } else {
                (s1, rel)
            },
            None => (s1, rel),
        }
    }
}

/// Unloading keeps the names unique, leaves no entry of the unloaded script
/// under the names it registered, and keeps every entry of another script.
pub proof fn law_unload_reverses_own<K>(s: Seq<HandlerEntry<K>>, names: Seq<Seq<char>>, id: ScriptId)
    requires
        unique_names(entry_names(s)),
    ensures
        unique_names(entry_names(unload_fold(s, names, id).0)),
        forall|k: int|
            0 <= k < names.len() ==> match index_of_name(
                entry_names(unload_fold(s, names, id).0),
                #[trigger] names[k],
            ) {
                Some(m) => unload_fold(s, names, id).0[m].script != id,
                None => true,
            },
        forall|e: HandlerEntry<K>|
            s.contains(e) && e.script != id ==> #[trigger] unload_fold(s, names, id).0.contains(e),
    decreases names.len(),
{
    if names.len() > 0 {
        let p = names.drop_last();
        law_unload_reverses_own(s, p, id);
        let s1 = unload_fold(s, p, id).0;
        let r = unload_fold(s, names, id).0;
        lemma_index_of_name(entry_names(s1), names.last());
        match index_of_name(entry_names(s1), names.last()) {
            Some(i) => {
                if s1[i].script == id {
                    lemma_unique_remove_push(s1, i, s1[i]);
                    assert(r == s1.remove(i));
                    assert forall|k: int| 0 <= k < names.len() implies match index_of_name(
                        entry_names(r),
                        #[trigger] names[k],
                    ) {
                        Some(m) => r[m].script != id,
                        None => true,
                    } by {
                        let n = names[k];
                        lemma_index_of_name(entry_names(r), n);
                        if let Some(m) = index_of_name(entry_names(r), n) {
                            let m0 = if m < i {
                                m
                            } else {
                                m + 1
                            };
                            assert(r[m] == s1[m0]);
                            assert(entry_names(s1)[m0] == n);
                            if k == names.len() - 1 {
                                assert(entry_names(s1)[i] == n);
                                assert(false);
                            } else {
                                assert(p[k] == n);
                                lemma_index_of_name(entry_names(s1), n);
                                lemma_index_unique(entry_names(s1), m0);
                            }
                        }
                    }
                    assert forall|e: HandlerEntry<K>|
                        s.contains(e) && e.script != id implies #[trigger] r.contains(e) by {
                        assert(s1.contains(e));
                        let x = choose|x: int| 0 <= x < s1.len() && s1[x] == e;
                        assert(x != i);
                        if x < i {
                            assert(r[x] == e);
                        } else {
                            assert(r[x - 1] == e);
                        }
                    }
                } else {
                    assert(r == s1);
                    assert forall|k: int| 0 <= k < names.len() implies match index_of_name(
                        entry_names(r),
                        #[trigger] names[k],
                    ) {
                        Some(m) => r[m].script != id,
                        None => true,
                    } by {
                        if k < p.len() {
                            assert(p[k] == names[k]);
                        }
                    }
                }
            },
            None => {
                assert forall|k: int| 0 <= k < names.len() implies match index_of_name(
                    entry_names(r),
                    #[trigger] names[k],
                ) {
                    Some(m) => r[m].script != id,
                    None => true,
                } by {
                    if k < p.len() {
                        assert(p[k] == names[k]);
                    }
                }
            },
        }
    }
}

// ---------------------------------------------------------------------------
// The handler table of a script runtime
// ---------------------------------------------------------------------------

/// A registration a script makes while it loads.
pub enum Registration<K> {
    Directive { name: String, key: K },
    Link { namespace: String, key: K },
}

/// The names a loaded script registered.
pub struct ScriptRecord {
    pub id: ScriptId,
    pub directive_names: Vec<String>,
    pub link_names: Vec<String>,
}

pub open spec fn names_view(v: Seq<String>) -> Seq<Seq<char>> {
    v.map_values(|s: String| s@)
}

/// The state a load builds up: both handler lists, the names registered, and
/// the keys of the handlers that were replaced.
pub struct LoadState<K> {
    pub directives: Seq<HandlerEntry<K>>,
    pub links: Seq<HandlerEntry<K>>,
    pub directive_names: Seq<Seq<char>>,
    pub link_names: Seq<Seq<char>>,
    pub displaced: Seq<K>,
}

/// The key of the entry that putting an entry named `name` replaces.
pub open spec fn displaced_by<K>(s: Seq<HandlerEntry<K>>, name: Seq<char>, d: Seq<K>) -> Seq<K> {
    match index_of_name(entry_names(s), name) {
        Some(i) => d.push(s[i].key),
        None => d,
    }
}

pub open spec fn load_step<K>(st: LoadState<K>, r: Registration<K>, id: ScriptId) -> LoadState<K> {
    match r {
        Registration::Directive { name, key } => LoadState {
            directives: put_spec(st.directives, HandlerEntry { name, key, script: id }),
            directive_names: st.directive_names.push(name@),
            displaced: displaced_by(st.directives, name@, st.displaced),
            ..st
        },
        Registration::Link { namespace, key } => LoadState {
            links: put_spec(st.links, HandlerEntry { name: namespace, key, script: id }),
            link_names: st.link_names.push(namespace@),
            displaced: displaced_by(st.links, namespace@, st.displaced),
            ..st
        },
    }
}

/// The registrations applied in order.
pub open spec fn load_fold<K>(st: LoadState<K>, regs: Seq<Registration<K>>, id: ScriptId) -> LoadState<K>
    decreases regs.len(),
{
    if regs.len() == 0 {
        st
    } else {
        load_step(load_fold(st, regs.drop_last(), id), regs.last(), id)
    }
}

/// The first record of the script `id`.
pub open spec fn record_index(rs: Seq<ScriptRecord>, id: ScriptId) -> Option<int>
    decreases rs.len(),
{
    if rs.len() == 0 {
        None
    } else if rs[0].id == id {
        Some(0)
    } else {
        match record_index(rs.drop_first(), id) {
            Some(i) => Some(i + 1),
            None => None,
        }
    }
}

proof fn lemma_record_index(rs: Seq<ScriptRecord>, id: ScriptId)
    ensures
        match record_index(rs, id) {
            Some(i) => 0 <= i < rs.len() && rs[i].id == id && forall|j: int|
                0 <= j < i ==> #[trigger] rs[j].id != id,
            None => forall|j: int| 0 <= j < rs.len() ==> #[trigger] rs[j].id != id,
        },
    decreases rs.len(),
{
    if rs.len() > 0 && rs[0].id != id {
        lemma_record_index(rs.drop_first(), id);
        assert forall|j: int| 0 < j < rs.len() implies rs[j] == #[trigger] rs.drop_first()[j - 1] by {}
    }
}

/// The message for a script id that is not loaded.
pub open spec fn unknown_script_message(id: ScriptId) -> Seq<char> {
    "unknown script id ScriptId("@ + dec(id.0 as nat) + ")"@
}

/// Handlers and link resolvers, the scripts that registered them, the next
/// script id, and a generation counter that moves on every load and unload.
pub struct HandlerTable<K> {
    directives: HandlerList<K>,
    links: HandlerList<K>,
    scripts: Vec<ScriptRecord>,
    next_script_id: u64,
    generation: u64,
}

impl<K> HandlerTable<K> {
    pub closed spec fn directives_of(self) -> Seq<HandlerEntry<K>> {
        self.directives@
    }

    pub closed spec fn links_of(self) -> Seq<HandlerEntry<K>> {
        self.links@
    }

    pub closed spec fn scripts_of(self) -> Seq<ScriptRecord> {
        self.scripts@
    }

    pub closed spec fn next_id(self) -> u64 {
        self.next_script_id
    }

    pub closed spec fn generation_of(self) -> u64 {
        self.generation
    }

    /// No handlers, no scripts; the first script gets id 1.
    pub fn new() -> (r: Self)
        ensures
            r.directives_of() == Seq::<HandlerEntry<K>>::empty(),
            r.links_of() == Seq::<HandlerEntry<K>>::empty(),
            r.scripts_of() == Seq::<ScriptRecord>::empty(),
            r.next_id() == 1,
            r.generation_of() == 0,
    {
        HandlerTable {
            directives: HandlerList::new(),
            links: HandlerList::new(),
            scripts: Vec::new(),
            next_script_id: 1,
            generation: 0,
        }
    }

    /// The id for the next script to load.
    pub fn allocate_script_id(&mut self) -> (id: ScriptId)
        requires
            old(self).next_id() < u64::MAX,
        ensures
            id.0 == old(self).next_id(),
            final(self).next_id() == old(self).next_id() + 1,
            final(self).directives_of() == old(self).directives_of(),
            final(self).links_of() == old(self).links_of(),
            final(self).scripts_of() == old(self).scripts_of(),
            final(self).generation_of() == old(self).generation_of(),
    {
        let id = ScriptId(self.next_script_id);
        self.next_script_id = self.next_script_id + 1;
        id
    }

    /// Record a loaded script: apply its registrations in order and give back
    /// the keys of the handlers they replaced.
    pub fn record_load(&mut self, id: ScriptId, regs: Vec<Registration<K>>) -> (displaced: Vec<K>)
        ensures
            ({
                let st = load_fold(
                    LoadState {
                        directives: old(self).directives_of(),
                        links: old(self).links_of(),
                        directive_names: Seq::empty(),
                        link_names: Seq::empty(),
                        displaced: Seq::empty(),
                    },
                    regs@,
                    id,
                );
                &&& final(self).directives_of() == st.directives
                &&& final(self).links_of() == st.links
                &&& displaced@ == st.displaced
                &&& final(self).scripts_of().len() == old(self).scripts_of().len() + 1
                &&& final(self).scripts_of().take(old(self).scripts_of().len() as int)
                    == old(self).scripts_of()
                &&& final(self).scripts_of().last().id == id
                &&& names_view(final(self).scripts_of().last().directive_names@)
                    == st.directive_names
                &&& names_view(final(self).scripts_of().last().link_names@) == st.link_names
            }),
            final(self).next_id() == old(self).next_id(),
            final(self).generation_of() == old(self).generation_of().wrapping_add(1),
    {
        let ghost st0 = LoadState {
            directives: self.directives@,
            links: self.links@,
            directive_names: Seq::empty(),
            link_names: Seq::empty(),
            displaced: Seq::empty(),
        };
        let ghost all = regs@;
        let mut rest = regs;
        let total: usize = rest.len();
        let mut directive_names: Vec<String> = Vec::new();
        let mut link_names: Vec<String> = Vec::new();
        let mut displaced: Vec<K> = Vec::new();
        let mut k: usize = 0;
        proof {
            assert(all.len() == total);
            assert(all.take(0) =~= Seq::<Registration<K>>::empty());
            assert(all.skip(0) =~= all);
        }
        while k < total
            invariant
                k <= all.len(),
                total == all.len(),
                rest@ == all.skip(k as int),
                ({
                    let st = load_fold(st0, all.take(k as int), id);
                    &&& self.directives@ == st.directives
                    &&& self.links@ == st.links
                    &&& names_view(directive_names@) == st.directive_names
                    &&& names_view(link_names@) == st.link_names
                    &&& displaced@ == st.displaced
                }),
                self.scripts@ == old(self).scripts@,
                self.next_script_id == old(self).next_script_id,
                self.generation == old(self).generation,
            decreases rest.len(),
        {
            let ghost before = load_fold(st0, all.take(k as int), id);
            let r = rest.remove(0);
            proof {
                assert(all.take(k + 1).drop_last() =~= all.take(k as int));
                assert(all[k as int] == r);
                assert(all.take(k + 1).last() == r);
                assert(rest@ =~= all.skip(k + 1));
            }
            match r {
                Registration::Directive { name, key } => {
                    let n2 = name.clone();
                    let old_entry = self.directives.put(HandlerEntry { name, key, script: id });
                    if let Some(e) = old_entry {
                        displaced.push(e.key);
                    }
                    directive_names.push(n2);
                    proof {
                        assert(names_view(directive_names@) =~= before.directive_names.push(n2@));
                    }
                },
                Registration::Link { namespace, key } => {
                    let n2 = namespace.clone();
                    let old_entry = self.links.put(HandlerEntry { name: namespace, key, script: id });
                    if let Some(e) = old_entry {
                        displaced.push(e.key);
                    }
                    link_names.push(n2);
                    proof {
                        assert(names_view(link_names@) =~= before.link_names.push(n2@));
                    }
                },
            }
            k = k + 1;
        }
        proof {
            assert(all.take(k as int) =~= all);
        }
        self.scripts.push(ScriptRecord { id, directive_names, link_names });
        self.generation = self.generation.wrapping_add(1);
        displaced
    }

    /// The end of a script load, given what running the script gave: where it
    /// failed, its error, with the table unchanged (the id stays spent); else
    /// its registrations recorded under `id`, with the keys they displaced
    /// given back. After a load, each name the script registered is found
    /// owned by it, and the generation has moved on by one.
    pub fn complete_load(
        &mut self,
        id: ScriptId,
        outcome: Result<Vec<Registration<K>>, RuntimeError>,
    ) -> (r: Result<Vec<K>, RuntimeError>)
        ensures
            match outcome {
                Err(e) => r == Err::<Vec<K>, RuntimeError>(e) && *final(self) == *old(self),
                Ok(regs) => {
                    let st = load_fold(
                        LoadState {
                            directives: old(self).directives_of(),
                            links: old(self).links_of(),
                            directive_names: Seq::empty(),
                            link_names: Seq::empty(),
                            displaced: Seq::empty(),
                        },
                        regs@,
                        id,
                    );
                    &&& r matches Ok(displaced) && displaced@ == st.displaced
                    &&& final(self).directives_of() == st.directives
                    &&& final(self).links_of() == st.links
                    &&& owns_registered(st, regs@, id)
                    &&& final(self).scripts_of().len() == old(self).scripts_of().len() + 1
                    &&& final(self).scripts_of().take(old(self).scripts_of().len() as int)
                        == old(self).scripts_of()
                    &&& final(self).scripts_of().last().id == id
                    &&& final(self).next_id() == old(self).next_id()
                    &&& final(self).generation_of() == old(self).generation_of().wrapping_add(1)
                },
            },
    {
        match outcome {
            Err(e) => Err(e),
            Ok(regs) => {
                proof {
                    use_type_invariant(&self.directives);
                    use_type_invariant(&self.links);
                    law_load_owns_names(
                        LoadState {
                            directives: self.directives_of(),
                            links: self.links_of(),
                            directive_names: Seq::empty(),
                            link_names: Seq::empty(),
                            displaced: Seq::empty(),
                        },
                        regs@,
                        id,
                    );
                }
                Ok(self.record_load(id, regs))
            },
        }
    }

    /// Reverse what the script `id` registered: take each handler and
    /// resolver under the names it registered that it still owns, and give
    /// back their keys. One that another script has registered under such a
    /// name since stays. An id that is not loaded is an error and changes
    /// nothing.
    pub fn unload(&mut self, id: ScriptId) -> (r: Result<Vec<K>, RuntimeError>)
        ensures
            match record_index(old(self).scripts_of(), id) {
                None => r matches Err(RuntimeError::Load(m)) && m@ == unknown_script_message(id)
                    && *final(self) == *old(self),
                Some(j) => {
                    let rec = old(self).scripts_of()[j];
                    let d = unload_fold(old(self).directives_of(), names_view(rec.directive_names@), id);
                    let l = unload_fold(old(self).links_of(), names_view(rec.link_names@), id);
                    &&& r matches Ok(released) && released@ == d.1 + l.1
                    &&& final(self).directives_of() == d.0
                    &&& final(self).links_of() == l.0
                    &&& final(self).scripts_of() == old(self).scripts_of().remove(j)
                    &&& final(self).next_id() == old(self).next_id()
                    &&& final(self).generation_of() == old(self).generation_of().wrapping_add(1)
                },
            },
    {
        proof {
            lemma_record_index(self.scripts@, id);
        }
        let mut j: usize = 0;
        while j < self.scripts.len()
            invariant
                j <= self.scripts@.len(),
                forall|x: int| 0 <= x < j ==> #[trigger] self.scripts@[x].id != id,
            ensures
                j <= self.scripts@.len(),
                forall|x: int| 0 <= x < j ==> #[trigger] self.scripts@[x].id != id,
                j < self.scripts@.len() ==> self.scripts@[j as int].id == id,
            decreases self.scripts.len() - j,
        {
            if self.scripts[j].id == id {
                break;
            }
            j = j + 1;
        }
        proof {
            lemma_record_index(self.scripts@, id);
        }
        if j >= self.scripts.len() {
            let mut m = "unknown script id ScriptId(".to_owned();
            let n = u64_to_string(id.0);
            m.append(n.as_str());
            m.append(")");
            return Err(RuntimeError::Load(m));
        }
        proof {
            match record_index(self.scripts@, id) {
                Some(x) => {
                    if x < j {
                        assert(self.scripts@[x].id != id);
                    } else if x > j {
                        assert(self.scripts@[j as int].id == id);
                    }
                },
                None => {
                    assert(self.scripts@[j as int].id == id);
                },
            }
        }
        let rec = self.scripts.remove(j);
        let mut released = take_all(&mut self.directives, &rec.directive_names, id);
        let mut rel2 = take_all(&mut self.links, &rec.link_names, id);
        released.append(&mut rel2);
        self.generation = self.generation.wrapping_add(1);
        Ok(released)
    }

    /// The key of the directive handler registered under `name`.
    pub fn find_directive(&self, name: &str) -> (r: Option<&K>)
        ensures
            match index_of_name(entry_names(self.directives_of()), name@) {
                Some(i) => r == Some(&self.directives_of()[i].key),
                None => r is None,
            },
    {
        match self.directives.find(name) {
            Some(e) => Some(&e.key),
            None => None,
        }
    }

    /// The key of the link resolver registered under `namespace`.
    pub fn find_link(&self, namespace: &str) -> (r: Option<&K>)
        ensures
            match index_of_name(entry_names(self.links_of()), namespace@) {
                Some(i) => r == Some(&self.links_of()[i].key),
                None => r is None,
            },
    {
        match self.links.find(namespace) {
            Some(e) => Some(&e.key),
            None => None,
        }
    }

    /// A descriptor of each directive handler.
    pub fn directive_descriptors(&self) -> (r: Vec<HandlerDescriptor>)
        ensures
            r@.len() == self.directives_of().len(),
            forall|i: int|
                0 <= i < r@.len() ==> (#[trigger] r@[i]).name@ == self.directives_of()[i].name@
                    && r@[i].script == self.directives_of()[i].script && r@[i].kind is None,
    {
        self.directives.descriptors()
    }

    pub fn generation(&self) -> (r: u64)
        ensures
            r == self.generation_of(),
    {
        self.generation
    }

    pub fn next_script_id(&self) -> (r: u64)
        ensures
            r == self.next_id(),
    {
        self.next_script_id
    }
}

/// Take, in order, each entry named in `names` that `id` registered, and
/// give back their keys.
fn take_all<K>(list: &mut HandlerList<K>, names: &Vec<String>, id: ScriptId) -> (r: Vec<K>)
    ensures
        ({
            let u = unload_fold(old(list)@, names_view(names@), id);
            &&& final(list)@ == u.0
            &&& r@ == u.1
        }),
{
    let ghost s0 = list@;
    let ghost ns = names_view(names@);
    let mut released: Vec<K> = Vec::new();
    let mut k: usize = 0;
    proof {
        assert(ns.take(0) =~= Seq::<Seq<char>>::empty());
    }
    while k < names.len()
        invariant
            k <= names@.len(),
            ns == names_view(names@),
            ({
                let u = unload_fold(s0, ns.take(k as int), id);
                &&& list@ == u.0
                &&& released@ == u.1
            }),
        decreases names.len() - k,
    {
        proof {
            assert(ns.take(k + 1).drop_last() =~= ns.take(k as int));
            assert(ns.take(k + 1).last() == names@[k as int]@);
        }
        let owned = match list.find(names[k].as_str()) {
            Some(e) => e.script == id,
            None => false,
        };
        if owned {
            match list.take(names[k].as_str()) {
                Some(e) => {
                    released.push(e.key);
                },
                None => {},
            }
        }
        k = k + 1;
    }
    proof {
        assert(ns.take(k as int) =~= ns);
    }
    released
}

/// A load keeps names unique, and the handler it registered last is found
/// under its name, owned by the loading script.
pub proof fn law_load_registers<K>(st: LoadState<K>, regs: Seq<Registration<K>>, id: ScriptId)
    requires
        unique_names(entry_names(st.directives)),
        unique_names(entry_names(st.links)),
    ensures
        unique_names(entry_names(load_fold(st, regs, id).directives)),
        unique_names(entry_names(load_fold(st, regs, id).links)),
        regs.len() > 0 ==> match regs.last() {
            Registration::Directive { name, key } => index_of_name(
                entry_names(load_fold(st, regs, id).directives),
                name@,
            ) matches Some(i) && load_fold(st, regs, id).directives[i] == (HandlerEntry {
                name,
                key,
                script: id,
            }),
            Registration::Link { namespace, key } => index_of_name(
                entry_names(load_fold(st, regs, id).links),
                namespace@,
            ) matches Some(i) && load_fold(st, regs, id).links[i] == (HandlerEntry {
                name: namespace,
                key,
                script: id,
            }),
        },
    decreases regs.len(),
{
    if regs.len() > 0 {
        law_load_registers(st, regs.drop_last(), id);
        let p = load_fold(st, regs.drop_last(), id);
        match regs.last() {
            Registration::Directive { name, key } => {
                law_find_after_put(p.directives, HandlerEntry { name, key, script: id }, name@);
            },
            Registration::Link { namespace, key } => {
                law_find_after_put(
                    p.links,
                    HandlerEntry { name: namespace, key, script: id },
                    namespace@,
                );
            },
        }
    }
}

/// The name a registration is made under, and whether it is a directive's.
pub open spec fn registered_name<K>(r: Registration<K>) -> (Seq<char>, bool) {
    match r {
        Registration::Directive { name, .. } => (name@, true),
        Registration::Link { namespace, .. } => (namespace@, false),
    }
}

/// After a load, every name the script registered is found owned by it.
pub open spec fn owns_registered<K>(st: LoadState<K>, regs: Seq<Registration<K>>, id: ScriptId) -> bool {
    forall|k: int|
        0 <= k < regs.len() ==> {
            let (n, is_dir) = registered_name(#[trigger] regs[k]);
            let s = if is_dir {
                st.directives
            } else {
                st.links
            };
            index_of_name(entry_names(s), n) matches Some(i) && s[i].script == id
        }
}

/// A load leaves every name it registered owned by the loading script.
pub proof fn law_load_owns_names<K>(st: LoadState<K>, regs: Seq<Registration<K>>, id: ScriptId)
    requires
        unique_names(entry_names(st.directives)),
        unique_names(entry_names(st.links)),
    ensures
        owns_registered(load_fold(st, regs, id), regs, id),
    decreases regs.len(),
{
    if regs.len() > 0 {
        let q = regs.drop_last();
        law_load_owns_names(st, q, id);
        law_load_registers(st, q, id);
        let p = load_fold(st, q, id);
        let f = load_fold(st, regs, id);
        let e = match regs.last() {
            Registration::Directive { name, key } => HandlerEntry { name, key, script: id },
            Registration::Link { namespace, key } => HandlerEntry { name: namespace, key, script: id },
        };
        assert forall|k: int| 0 <= k < regs.len() implies {
            let (n, is_dir) = registered_name(#[trigger] regs[k]);
            let s = if is_dir {
                f.directives
            } else {
                f.links
            };
            index_of_name(entry_names(s), n) matches Some(i) && s[i].script == id
        } by {
            let (n, is_dir) = registered_name(regs[k]);
            let (ln, l_dir) = registered_name(regs.last());
            if l_dir {
                law_find_after_put(p.directives, e, n);
            } else {
                law_find_after_put(p.links, e, n);
            }
            if k < q.len() {
                assert(q[k] == regs[k]);
            }
        }
    }
}

} // verus!
