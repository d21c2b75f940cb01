//! Native function and built-in module registration catalog.
//!
//! The catalog serves documentation, help and tests; it maps each `(module, name)`
//! key to the metadata registered last under it.
use vstd::prelude::*;

use crate::host::capability::lex_lt;
use crate::package::order::{
    lemma_insert_sorted, occurs, sorted_unique, strictly_sorted, text_equal, text_less,
};
use crate::host::capability::lemma_lex_total;
use crate::text::string_views;
use vstd::string::*;

verus! {

/// Metadata describing a native function or method provided by the runtime.
#[derive(Debug)]
pub struct NativeFunctionMeta {
    /// Function identifier.
    pub name: String,
    /// Expected parameter count.
    pub arity: usize,
    /// Parent module path (`None` for Prelude functions).
    pub module: Option<String>,
    /// Brief documentation of purpose.
    pub doc: String,
    /// Capability paths required by the native function, for catalog consumers.
    pub capabilities: Vec<String>,
    /// Whether calling the native produces a `Task` instead of a value.
    pub is_async: bool,
}

/// The value reading of native function metadata.
pub ghost struct MetaView {
    /// Function identifier.
    pub name: Seq<char>,
    /// Expected parameter count.
    pub arity: usize,
    /// Parent module path.
    pub module: Option<Seq<char>>,
    /// Documentation.
    pub doc: Seq<char>,
    /// Required capability paths.
    pub capabilities: Seq<Seq<char>>,
    /// Whether the native is asynchronous.
    pub is_async: bool,
}

/// The reading of an optional string.
pub open spec fn opt_text(v: Option<String>) -> Option<Seq<char>> {
    match v {
        Some(s) => Some(s@),
        None => None,
    }
}

impl View for NativeFunctionMeta {
    type V = MetaView;

    open spec fn view(&self) -> MetaView {
        MetaView {
            name: self.name@,
            arity: self.arity,
            module: opt_text(self.module),
            doc: self.doc@,
            capabilities: string_views(self.capabilities@),
            is_async: self.is_async,
        }
    }
}

impl NativeFunctionMeta {
    /// Creates new native function metadata, synchronous and requiring no capability.
    pub fn new(name: &str, arity: usize, module: Option<&str>, doc: &str) -> (meta: NativeFunctionMeta)
        ensures
            meta@ == (MetaView {
                name: name@,
                arity,
                module: match module {
                    Some(m) => Some(m@),
                    None => None,
                },
                doc: doc@,
                capabilities: Seq::empty(),
                is_async: false,
            }),
    {
        let module = match module {
            Some(m) => Some(String::from_str(m)),
            None => None,
        };
        let meta = NativeFunctionMeta {
            name: String::from_str(name),
            arity,
            module,
            doc: String::from_str(doc),
            capabilities: Vec::new(),
            is_async: false,
        };
        assert(meta@.capabilities =~= Seq::<Seq<char>>::empty());
        meta
    }

    /// Marks the native as asynchronous.
    pub fn with_async(self) -> (meta: NativeFunctionMeta)
        ensures
            meta@ == (MetaView { is_async: true, ..self@ }),
    {
        NativeFunctionMeta { is_async: true, ..self }
    }

    /// Sets the capability paths declared by this native function.
    pub fn with_capabilities(self, capabilities: &[&str]) -> (meta: NativeFunctionMeta)
        ensures
            meta@ == (MetaView { capabilities: capabilities@.map_values(|c: &str| c@), ..self@ }),
    {
        let mut list: Vec<String> = Vec::new();
        let mut i: usize = 0;
        while i < capabilities.len()
            invariant
                i <= capabilities@.len(),
                string_views(list@) == capabilities@.take(i as int).map_values(|c: &str| c@),
            decreases capabilities.len() - i,
        {
            let ghost before = string_views(list@);
            let item = String::from_str(capabilities[i]);
            list.push(item);
            assert(string_views(list@) =~= before.push(capabilities@[i as int]@));
            assert(capabilities@.take(i + 1).map_values(|c: &str| c@) =~= capabilities@.take(i as int).map_values(|c: &str| c@).push(capabilities@[i as int]@));
            i = i + 1;
        }
        assert(capabilities@.take(capabilities@.len() as int) =~= capabilities@);
        NativeFunctionMeta { capabilities: list, ..self }
    }
}

/// The key of an entry: its module and its name.
pub open spec fn key_of(m: MetaView) -> (Option<Seq<char>>, Seq<char>) {
    (m.module, m.name)
}

/// The readings of a list of entries.
pub open spec fn meta_views(s: Seq<NativeFunctionMeta>) -> Seq<MetaView> {
    s.map_values(|m: NativeFunctionMeta| m@)
}

/// The catalog map of a list of entries: each key to the entry stored under it.
pub open spec fn catalog(s: Seq<MetaView>) -> Map<(Option<Seq<char>>, Seq<char>), MetaView>
    decreases s.len(),
{
    if s.len() == 0 {
        Map::empty()
    } else {
        catalog(s.drop_last()).insert(key_of(s.last()), s.last())
    }
}

/// No two entries share a key.
pub open spec fn keys_unique(s: Seq<MetaView>) -> bool {
    forall|i: int, j: int| 0 <= i < j < s.len() ==> key_of(#[trigger] s[i]) != key_of(#[trigger] s[j])
}

/// With distinct keys, the catalog holds exactly the stored entries.
proof fn lemma_catalog(s: Seq<MetaView>)
    requires
        keys_unique(s),
    ensures
        forall|k: (Option<Seq<char>>, Seq<char>)| #[trigger] catalog(s).contains_key(k) <==> exists|i: int| 0 <= i < s.len() && key_of(s[i]) == k,
        forall|i: int| 0 <= i < s.len() ==> #[trigger] catalog(s)[key_of(s[i])] == s[i],
    decreases s.len(),
{
    if s.len() > 0 {
        let t = s.drop_last();
        assert forall|i: int, j: int| 0 <= i < j < t.len() implies key_of(#[trigger] t[i]) != key_of(#[trigger] t[j]) by {
            assert(t[i] == s[i] && t[j] == s[j]);
        }
        lemma_catalog(t);
        assert forall|k: (Option<Seq<char>>, Seq<char>)| #[trigger] catalog(s).contains_key(k) <==> exists|i: int| 0 <= i < s.len() && key_of(s[i]) == k by {
            if catalog(s).contains_key(k) {
                if k == key_of(s.last()) {
                    assert(key_of(s[s.len() - 1]) == k);
                } else {
                    assert(catalog(t).contains_key(k));
                    let i = choose|i: int| 0 <= i < t.len() && key_of(t[i]) == k;
                    assert(s[i] == t[i]);
                    assert(key_of(s[i]) == k);
                }
            }
            if exists|i: int| 0 <= i < s.len() && key_of(s[i]) == k {
                let i = choose|i: int| 0 <= i < s.len() && key_of(s[i]) == k;
                if i < s.len() - 1 {
                    assert(t[i] == s[i]);
                    assert(key_of(t[i]) == k);
                    assert(catalog(t).contains_key(k));
                }
            }
        }
        assert forall|i: int| 0 <= i < s.len() implies #[trigger] catalog(s)[key_of(s[i])] == s[i] by {
            if i < s.len() - 1 {
                assert(t[i] == s[i]);
                assert(key_of(s[i]) != key_of(s[s.len() - 1]));
                assert(catalog(t)[key_of(t[i])] == t[i]);
            }
        }
    }
}

/// Replacing the entry stored under a key updates the catalog at that key.
proof fn lemma_catalog_update(s: Seq<MetaView>, i: int, x: MetaView)
    requires
        keys_unique(s),
        0 <= i < s.len(),
        key_of(s[i]) == key_of(x),
    ensures
        keys_unique(s.update(i, x)),
        catalog(s.update(i, x)) == catalog(s).insert(key_of(x), x),
{
    let u = s.update(i, x);
    assert forall|a: int, b: int| 0 <= a < b < u.len() implies key_of(#[trigger] u[a]) != key_of(#[trigger] u[b]) by {
        if a == i {
            assert(key_of(u[a]) == key_of(s[i]));
        }
        if b == i {
            assert(key_of(u[b]) == key_of(s[i]));
        }
    }
    lemma_catalog(s);
    lemma_catalog(u);
    let m = catalog(s).insert(key_of(x), x);
    assert forall|k: (Option<Seq<char>>, Seq<char>)| #[trigger] catalog(u).contains_key(k) <==> m.contains_key(k) by {
        if m.contains_key(k) {
            if k == key_of(x) {
                assert(key_of(u[i]) == k);
            } else {
                assert(catalog(s).contains_key(k));
                let j = choose|j: int| 0 <= j < s.len() && key_of(s[j]) == k;
                assert(u[j] == s[j]);
                assert(key_of(u[j]) == k);
            }
        }
        if catalog(u).contains_key(k) {
            let j = choose|j: int| 0 <= j < u.len() && key_of(u[j]) == k;
            if j != i {
                assert(u[j] == s[j]);
                assert(key_of(s[j]) == k);
                assert(catalog(s).contains_key(k));
            }
        }
    }
    assert forall|k: (Option<Seq<char>>, Seq<char>)| catalog(u).contains_key(k) implies #[trigger] catalog(u)[k] == m[k] by {
        let j = choose|j: int| 0 <= j < u.len() && key_of(u[j]) == k;
        assert(catalog(u)[key_of(u[j])] == u[j]);
        if j != i {
            assert(u[j] == s[j]);
            assert(catalog(s)[key_of(s[j])] == s[j]);
        }
    }
    assert(catalog(u) =~= m);
}

/// The index of the entry stored under the key of `meta`, if any.
fn find_key(functions: &Vec<NativeFunctionMeta>, meta: &NativeFunctionMeta) -> (found: Option<usize>)
    ensures
        match found {
            Some(i) => i < functions@.len() && key_of(functions@[i as int]@) == key_of(meta@),
            None => forall|j: int| 0 <= j < functions@.len() ==> key_of(#[trigger] meta_views(functions@)[j]) != key_of(meta@),
        },
{
    let ghost s = meta_views(functions@);
    let mut i: usize = 0;
    while i < functions.len()
        invariant
            s == meta_views(functions@),
            i <= s.len(),
            forall|j: int| 0 <= j < i ==> key_of(#[trigger] s[j]) != key_of(meta@),
        decreases functions.len() - i,
    {
        assert(s[i as int] == functions@[i as int]@);
        let same_module = match (&functions[i].module, &meta.module) {
            (Some(a), Some(b)) => text_equal(a.as_str(), b.as_str()),
            (None, None) => true,
            _ => false,
        };
        let same = same_module && text_equal(functions[i].name.as_str(), meta.name.as_str());
        if same {
            return Some(i);
        }
        i = i + 1;
    }
    None
}

/// Catalog of native functions registered for prelude and built-in modules.
#[derive(Debug)]
pub struct NativeRegistry {
    functions: Vec<NativeFunctionMeta>,
}

impl NativeRegistry {
    /// Stored entries have distinct keys, and no entry names the empty module.
    #[verifier::type_invariant]
    spec fn well_formed(self) -> bool {
        &&& keys_unique(meta_views(self.functions@))
        &&& forall|i: int| 0 <= i < self.functions@.len() ==> #[trigger] self.functions@[i]@.module != Some(Seq::<char>::empty())
    }

    /// Each `(module, name)` key mapped to the metadata registered under it.
    pub closed spec fn entries(self) -> Map<(Option<Seq<char>>, Seq<char>), MetaView> {
        catalog(meta_views(self.functions@))
    }

    /// Constructs a new empty native registry.
    pub fn new() -> (registry: NativeRegistry)
        ensures
            registry.entries() == Map::<(Option<Seq<char>>, Seq<char>), MetaView>::empty(),
    {
        let registry = NativeRegistry { functions: Vec::new() };
        assert(meta_views(registry.functions@) =~= Seq::<MetaView>::empty());
        registry
    }

    /// Registers a native function, with an empty module read as the Prelude; returns
    /// whether an entry with the same `(module, name)` was replaced.
    pub fn register(&mut self, meta: NativeFunctionMeta) -> (replaced: bool)
        ensures
            ({
                let stored = if meta@.module == Some(Seq::<char>::empty()) {
                    MetaView { module: None, ..meta@ }
                } else {
                    meta@
                };
                &&& replaced == old(self).entries().contains_key(key_of(stored))
                &&& final(self).entries() == old(self).entries().insert(key_of(stored), stored)
            }),
    {
        proof {
            use_type_invariant(&*self);
        }
        let ghost original = meta@;
        let mut meta = meta;
        let empty_module = match &meta.module {
            Some(m) => m.as_str().is_empty(),
            None => false,
        };
        if empty_module {
            meta.module = None;
        }
        let ghost stored = meta@;
        proof {
            if original.module == Some(Seq::<char>::empty()) {
                assert(empty_module);
                assert(stored == MetaView { module: None, ..original });
            } else {
                if empty_module {
                    let m = original.module->0;
                    assert(m =~= Seq::<char>::empty());
                }
                assert(stored == original);
            }
        }
        let ghost s = meta_views(self.functions@);
        proof {
            lemma_catalog(s);
        }
        match find_key(&self.functions, &meta) {
            Some(i) => {
                proof {
                    lemma_catalog_update(s, i as int, stored);
                }
                let mut functions: Vec<NativeFunctionMeta> = Vec::new();
                std::mem::swap(&mut functions, &mut self.functions);
                functions.set(i, meta);
                assert(meta_views(functions@) =~= s.update(i as int, stored));
                assert forall|j: int| 0 <= j < functions@.len() implies #[trigger] functions@[j]@.module != Some(Seq::<char>::empty()) by {
                    if j != i {
                        assert(functions@[j]@ == s[j]);
                    }
                }
                self.functions = functions;
                true
            },
            None => {
                let mut functions: Vec<NativeFunctionMeta> = Vec::new();
                std::mem::swap(&mut functions, &mut self.functions);
                functions.push(meta);
                assert(meta_views(functions@) =~= s.push(stored));
                assert(meta_views(functions@).drop_last() =~= s);
                assert forall|a: int, b: int| 0 <= a < b < functions@.len() implies key_of(#[trigger] meta_views(functions@)[a]) != key_of(#[trigger] meta_views(functions@)[b]) by {
                    if b == s.len() {
                        assert(meta_views(functions@)[a] == s[a]);
                    } else {
                        assert(meta_views(functions@)[a] == s[a] && meta_views(functions@)[b] == s[b]);
                    }
                }
                assert forall|j: int| 0 <= j < functions@.len() implies #[trigger] functions@[j]@.module != Some(Seq::<char>::empty()) by {
                    if j < s.len() {
                        assert(functions@[j]@ == s[j]);
                    }
                }
                self.functions = functions;
                assert(!catalog(s).contains_key(key_of(stored)));
                false
            },
        }
    }

    /// Looks up a native function by optional module path and exact, case-sensitive name.
    pub fn get(&self, module: Option<&str>, name: &str) -> (found: Option<&NativeFunctionMeta>)
        ensures
            ({
                let key = (match module {
                    Some(m) => Some(m@),
                    None => None,
                }, name@);
                match found {
                    Some(meta) => self.entries().contains_key(key) && self.entries()[key] == meta@,
                    None => !self.entries().contains_key(key),
                }
            }),
    {
        proof {
            use_type_invariant(self);
        }
        let ghost s = meta_views(self.functions@);
        let ghost key = (match module {
            Some(m) => Some(m@),
            None => None,
        }, name@);
        proof {
            lemma_catalog(s);
        }
        let mut i: usize = 0;
        while i < self.functions.len()
            invariant
                s == meta_views(self.functions@),
                key == (match module {
                    Some(m) => Some(m@),
                    None => None,
                }, name@),
                keys_unique(s),
                i <= s.len(),
                forall|j: int| 0 <= j < i ==> key_of(#[trigger] s[j]) != key,
            decreases self.functions.len() - i,
        {
            assert(s[i as int] == self.functions@[i as int]@);
            let same_module = match (&self.functions[i].module, module) {
                (Some(a), Some(b)) => text_equal(a.as_str(), b),
                (None, None) => true,
                _ => false,
            };
            let same = same_module && text_equal(self.functions[i].name.as_str(), name);
            if same {
                assert(key_of(s[i as int]) == key);
                proof {
                    lemma_catalog(s);
                }
                assert(catalog(s)[key_of(s[i as int])] == s[i as int]);
                return Some(&self.functions[i]);
            }
            i = i + 1;
        }
        None
    }
}

/// `x` is one of the first `i` stored entries.
pub open spec fn stored_before(s: Seq<MetaView>, i: int, x: MetaView) -> bool {
    exists|j: int| 0 <= j < i && #[trigger] s[j] == x
}

/// The names of a list of entries.
pub open spec fn entry_names(s: Seq<&NativeFunctionMeta>) -> Seq<Seq<char>> {
    s.map_values(|m: &NativeFunctionMeta| m@.name)
}

/// `found` lists, by increasing name, exactly the entries of `entries` under `module`.
pub open spec fn listing(
    entries: Map<(Option<Seq<char>>, Seq<char>), MetaView>,
    module: Option<Seq<char>>,
    found: Seq<&NativeFunctionMeta>,
) -> bool {
    &&& strictly_sorted(entry_names(found))
    &&& forall|k: int| 0 <= k < found.len() ==> entries.contains_key((module, #[trigger] found[k]@.name))
        && entries[(module, found[k]@.name)] == found[k]@
    &&& forall|name: Seq<char>| #[trigger] entries.contains_key((module, name)) ==> occurs(entry_names(found), name)
}

impl NativeRegistry {
    /// The entries under `module`, ordered by name.
    fn list_in(&self, module: Option<&str>) -> (found: Vec<&NativeFunctionMeta>)
        ensures
            listing(self.entries(), match module {
                Some(m) => Some(m@),
                None => None,
            }, found@),
    {
        proof {
            use_type_invariant(self);
        }
        let ghost s = meta_views(self.functions@);
        let ghost wanted = match module {
            Some(m) => Some(m@),
            None => None,
        };
        proof {
            lemma_catalog(s);
        }
        let mut found: Vec<&NativeFunctionMeta> = Vec::new();
        let mut i: usize = 0;
        while i < self.functions.len()
            invariant
                s == meta_views(self.functions@),
                keys_unique(s),
                wanted == (match module {
                    Some(m) => Some(m@),
                    None => None,
                }),
                i <= s.len(),
                strictly_sorted(entry_names(found@)),
                forall|k: int| 0 <= k < found@.len() ==> stored_before(s, i as int, #[trigger] found@[k]@),
                forall|k: int| 0 <= k < found@.len() ==> (#[trigger] found@[k]@).module == wanted,
                forall|j: int| 0 <= j < i && (#[trigger] s[j]).module == wanted ==> occurs(entry_names(found@), s[j].name),
            decreases self.functions.len() - i,
        {
            assert(s[i as int] == self.functions@[i as int]@);
            let entry = &self.functions[i];
            let matches = match (&entry.module, module) {
                (Some(a), Some(b)) => text_equal(a.as_str(), b),
                (None, None) => true,
                _ => false,
            };
            if matches {
                let ghost before = found@;
                let ghost names = entry_names(found@);
                let ghost name = entry@.name;
                let mut p: usize = 0;
                while p < found.len() && text_less(found[p].name.as_str(), entry.name.as_str())
                    invariant
                        before == found@,
                        names == entry_names(found@),
                        name == entry@.name,
                        p <= found@.len(),
                        forall|q: int| 0 <= q < p ==> lex_lt(#[trigger] names[q], name),
                    decreases found.len() - p,
                {
                    assert(names[p as int] == found@[p as int]@.name);
                    p = p + 1;
                }
                if p < found.len() {
                    assert(names[p as int] == before[p as int]@.name);
                    assert(stored_before(s, i as int, before[p as int]@));
                    let ghost j = choose|j: int| 0 <= j < i && #[trigger] s[j] == before[p as int]@;
                    assert(key_of(s[j]) != key_of(s[i as int]));
                    assert(names[p as int] != name);
                    proof {
                        lemma_lex_total(names[p as int], name);
                    }
                }
                proof {
                    lemma_insert_sorted(names, p as int, name);
                }
                found.insert(p, entry);
                assert(entry_names(found@) =~= names.insert(p as int, name));
                assert forall|k: int| 0 <= k < found@.len() implies stored_before(s, i + 1, #[trigger] found@[k]@) by {
                    if k < p {
                        assert(found@[k] == before[k]);
                        assert(stored_before(s, i as int, before[k]@));
                        let j = choose|j: int| 0 <= j < i && #[trigger] s[j] == before[k]@;
                        assert(s[j] == found@[k]@);
                    } else if k > p {
                        assert(found@[k] == before[k - 1]);
                        assert(stored_before(s, i as int, before[k - 1]@));
                        let j = choose|j: int| 0 <= j < i && #[trigger] s[j] == before[k - 1]@;
                        assert(s[j] == found@[k]@);
                    } else {
                        assert(s[i as int] == found@[k]@);
                    }
                }
                assert forall|k: int| 0 <= k < found@.len() implies (#[trigger] found@[k]@).module == wanted by {
                    if k < p {
                        assert(found@[k] == before[k]);
                    } else if k > p {
                        assert(found@[k] == before[k - 1]);
                    }
                }
                assert forall|j: int| 0 <= j < i + 1 && (#[trigger] s[j]).module == wanted implies occurs(entry_names(found@), s[j].name) by {
                    if j == i {
                        assert(entry_names(found@)[p as int] == name);
                    } else {
                        assert(occurs(names, s[j].name));
                        let m = choose|m: int| 0 <= m < names.len() && names[m] == s[j].name;
                        if m < p {
                            assert(entry_names(found@)[m] == s[j].name);
                        } else {
                            assert(entry_names(found@)[m + 1] == s[j].name);
                        }
                    }
                }
            }
            i = i + 1;
        }
        assert forall|k: int| 0 <= k < found@.len() implies self.entries().contains_key((wanted, #[trigger] found@[k]@.name))
            && self.entries()[(wanted, found@[k]@.name)] == found@[k]@ by {
            assert(stored_before(s, s.len() as int, found@[k]@));
            let j = choose|j: int| 0 <= j < s.len() && #[trigger] s[j] == found@[k]@;
            assert(key_of(s[j]) == (wanted, found@[k]@.name));
            assert(catalog(s)[key_of(s[j])] == s[j]);
        }
        assert forall|name: Seq<char>| #[trigger] self.entries().contains_key((wanted, name)) implies occurs(entry_names(found@), name) by {
            let j = choose|j: int| 0 <= j < s.len() && key_of(s[j]) == (wanted, name);
            assert(s[j].module == wanted);
        }
        found
    }

    /// Lists the Prelude native functions, ordered by name.
    pub fn list_prelude(&self) -> (found: Vec<&NativeFunctionMeta>)
        ensures
            listing(self.entries(), None, found@),
    {
        self.list_in(None)
    }

    /// Lists the native functions of one built-in module, ordered by name.
    pub fn list_module(&self, module: &str) -> (found: Vec<&NativeFunctionMeta>)
        ensures
            listing(self.entries(), Some(module@), found@),
    {
        self.list_in(Some(module))
    }

    /// The distinct built-in module names registered, in increasing order.
    pub fn list_modules(&self) -> (modules: Vec<String>)
        ensures
            strictly_sorted(string_views(modules@)),
            forall|m: Seq<char>| occurs(string_views(modules@), m)
                <==> exists|name: Seq<char>| #[trigger] self.entries().contains_key((Some(m), name)),
    {
        proof {
            use_type_invariant(self);
        }
        let ghost s = meta_views(self.functions@);
        proof {
            lemma_catalog(s);
        }
        let mut names: Vec<String> = Vec::new();
        let mut i: usize = 0;
        while i < self.functions.len()
            invariant
                s == meta_views(self.functions@),
                i <= s.len(),
                forall|m: Seq<char>| occurs(string_views(names@), m)
                    <==> exists|j: int| 0 <= j < i && (#[trigger] s[j]).module == Some(m),
            decreases self.functions.len() - i,
        {
            assert(s[i as int] == self.functions@[i as int]@);
            let ghost before = string_views(names@);
            match &self.functions[i].module {
                Some(m) => {
                    names.push(m.clone());
                    assert(string_views(names@) =~= before.push(m@));
                    assert forall|x: Seq<char>| occurs(string_views(names@), x)
                        <==> exists|j: int| 0 <= j < i + 1 && (#[trigger] s[j]).module == Some(x) by {
                        if occurs(string_views(names@), x) {
                            let k = choose|k: int| 0 <= k < string_views(names@).len() && string_views(names@)[k] == x;
                            if k < before.len() {
                                assert(before[k] == x);
                                assert(occurs(before, x));
                            } else {
                                assert(s[i as int].module == Some(x));
                            }
                        }
                        if exists|j: int| 0 <= j < i + 1 && (#[trigger] s[j]).module == Some(x) {
                            let j = choose|j: int| 0 <= j < i + 1 && (#[trigger] s[j]).module == Some(x);
                            if j < i {
                                assert(occurs(before, x));
                                let k = choose|k: int| 0 <= k < before.len() && before[k] == x;
                                assert(string_views(names@)[k] == x);
                            } else {
                                assert(string_views(names@)[before.len() as int] == x);
                            }
                        }
                    }
                },
                None => {
                    assert forall|x: Seq<char>| occurs(string_views(names@), x)
                        <==> exists|j: int| 0 <= j < i + 1 && (#[trigger] s[j]).module == Some(x) by {
                        if exists|j: int| 0 <= j < i + 1 && (#[trigger] s[j]).module == Some(x) {
                            let j = choose|j: int| 0 <= j < i + 1 && (#[trigger] s[j]).module == Some(x);
                            assert(j < i);
                        }
                    }
                },
            }
            i = i + 1;
        }
        let modules = sorted_unique(&names);
        assert forall|m: Seq<char>| occurs(string_views(modules@), m)
            <==> exists|name: Seq<char>| #[trigger] self.entries().contains_key((Some(m), name)) by {
            if occurs(string_views(modules@), m) {
                assert(occurs(string_views(names@), m));
                let j = choose|j: int| 0 <= j < s.len() && (#[trigger] s[j]).module == Some(m);
                assert(key_of(s[j]) == (Some(m), s[j].name));
                assert(self.entries().contains_key((Some(m), s[j].name)));
            }
            if exists|name: Seq<char>| #[trigger] self.entries().contains_key((Some(m), name)) {
                let name = choose|name: Seq<char>| #[trigger] self.entries().contains_key((Some(m), name));
                let j = choose|j: int| 0 <= j < s.len() && key_of(s[j]) == (Some(m), name);
                assert(s[j].module == Some(m));
                assert(occurs(string_views(names@), m));
            }
        }
        modules
    }
}

} // verus!
