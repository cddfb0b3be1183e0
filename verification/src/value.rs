//! JSON-like documents and merge-patch.
//!
//! `Value` is the executable document tree; `Doc` is its mathematical model,
//! where an object is a finite map from key strings to sub-documents, so key
//! order and duplicates are not observable. `merge` is the specification of
//! merge-patch; `Value::merge_patch` computes it.
use vstd::prelude::*;

verus! {

/// Mathematical model of a JSON-like document.
pub enum Doc {
    Null,
    Bool(bool),
    Int(int),
    Str(Seq<char>),
    Arr(Seq<Doc>),
    Obj(Map<Seq<char>, Doc>),
}

/// Executable JSON-like document. An object is a vector of key/value entries;
/// a well-formed object (`wf`) has pairwise distinct keys.
#[derive(Debug, PartialEq, Eq)]
pub enum Value {
    Null,
    Bool(bool),
    Int(i64),
    Str(String),
    Arr(Vec<Value>),
    Obj(Vec<(String, Value)>),
}

/// Whether some entry of `es` has key `k`.
pub open spec fn has_key(es: Seq<(String, Value)>, k: Seq<char>) -> bool {
    exists|i: int| 0 <= i < es.len() && es[i].0@ == k
}

/// An index of an entry of `es` with key `k` (the unique one when keys are
/// distinct).
pub open spec fn index_of_key(es: Seq<(String, Value)>, k: Seq<char>) -> int {
    choose|i: int| 0 <= i < es.len() && es[i].0@ == k
}

/// The model of an executable document.
pub open spec fn doc_of(v: Value) -> Doc
    decreases v,
{
    match v {
        Value::Null => Doc::Null,
        Value::Bool(b) => Doc::Bool(b),
        Value::Int(n) => Doc::Int(n as int),
        Value::Str(s) => Doc::Str(s@),
        Value::Arr(vs) => Doc::Arr(
            Seq::new(
                vs@.len(),
                |i: int|
                    if 0 <= i < vs@.len() {
                        doc_of(vs@[i])
                    } else {
                        Doc::Null
                    },
            ),
        ),
        Value::Obj(es) => Doc::Obj(
            Map::new(
                |k: Seq<char>| has_key(es@, k),
                |k: Seq<char>|
                    if has_key(es@, k) {
                        doc_of(es@[index_of_key(es@, k)].1)
                    } else {
                        Doc::Null
                    },
            ),
        ),
    }
}

impl View for Value {
    type V = Doc;

    open spec fn view(&self) -> Doc {
        doc_of(*self)
    }
}

/// The map modelled by a sequence of object entries.
pub open spec fn obj_model(es: Seq<(String, Value)>) -> Map<Seq<char>, Doc> {
    Map::new(
        |k: Seq<char>| has_key(es, k),
        |k: Seq<char>|
            if has_key(es, k) {
                doc_of(es[index_of_key(es, k)].1)
            } else {
                Doc::Null
            },
    )
}

/// Pairwise distinct keys.
pub open spec fn keys_distinct(es: Seq<(String, Value)>) -> bool {
    forall|i: int, j: int| 0 <= i < j < es.len() ==> es[i].0@ != es[j].0@
}

impl Value {
    /// Well-formed: every object in the tree has pairwise distinct keys.
    pub open spec fn wf(self) -> bool
        decreases self,
    {
        match self {
            Value::Arr(vs) => forall|i: int| 0 <= i < vs@.len() ==> vs@[i].wf(),
            Value::Obj(es) => keys_distinct(es@) && forall|i: int|
                0 <= i < es@.len() ==> es@[i].1.wf(),
            _ => true,
        }
    }
}

/// Merge-patch of `patch` into `target`:
/// a non-object patch replaces the target verbatim; an object patch is merged
/// key by key into the target (treated as empty when not an object), where a
/// `Null` patch entry removes the key and any other entry is merged into the
/// target's entry for that key (or into `Null` where the target has none).
pub open spec fn merge(target: Doc, patch: Doc) -> Doc
    decreases patch,
{
    match patch {
        Doc::Obj(pm) => {
            let tm = match target {
                Doc::Obj(m) => m,
                _ => Map::<Seq<char>, Doc>::empty(),
            };
            Doc::Obj(
                Map::new(
                    |k: Seq<char>|
                        (tm.dom().contains(k) || pm.dom().contains(k)) && !(pm.dom().contains(k)
                            && pm[k] is Null),
                    |k: Seq<char>|
                        if pm.dom().contains(k) {
                            merge(
                                if tm.dom().contains(k) {
                                    tm[k]
                                } else {
                                    Doc::Null
                                },
                                pm[k],
                            )
                        } else {
                            tm[k]
                        },
                ),
            )
        },
        _ => patch,
    }
}

/// The object map produced by merging object entries `pm` into object
/// entries `tm`; `merge` on two objects returns exactly this map.
pub open spec fn merged_obj(tm: Map<Seq<char>, Doc>, pm: Map<Seq<char>, Doc>) -> Map<
    Seq<char>,
    Doc,
> {
    Map::new(
        |k: Seq<char>|
            (tm.dom().contains(k) || pm.dom().contains(k)) && !(pm.dom().contains(k)
                && pm[k] is Null),
        |k: Seq<char>|
            if pm.dom().contains(k) {
                merge(
                    if tm.dom().contains(k) {
                        tm[k]
                    } else {
                        Doc::Null
                    },
                    pm[k],
                )
            } else {
                tm[k]
            },
    )
}

/// The object map of the target a merge starts from: the target's own map
/// when it is an object, and the empty map otherwise.
pub open spec fn target_obj(target: Doc) -> Map<Seq<char>, Doc> {
    match target {
        Doc::Obj(m) => m,
        _ => Map::<Seq<char>, Doc>::empty(),
    }
}

/// A merge with an object patch yields exactly the merged object map.
pub proof fn lemma_merge_obj(target: Doc, patch: Doc)
    requires
        patch is Obj,
    ensures
        merge(target, patch) == Doc::Obj(merged_obj(target_obj(target), patch->Obj_0)),
{
    let m1 = merge(target, patch)->Obj_0;
    assert(m1 =~= merged_obj(target_obj(target), patch->Obj_0));
}

/// The model of an object value is the model of its entries.
pub proof fn lemma_doc_of_obj(es: Vec<(String, Value)>)
    ensures
        doc_of(Value::Obj(es)) == Doc::Obj(obj_model(es@)),
{
    let m1 = doc_of(Value::Obj(es))->Obj_0;
    assert(m1 =~= obj_model(es@));
}

/// The document a merge-patch fold starts from: the empty object.
pub open spec fn fold_start() -> Doc {
    Doc::Obj(Map::empty())
}

/// The entry of an object document under key `k`; `None` when the document is
/// not an object or has no such key.
pub open spec fn doc_get(d: Doc, k: Seq<char>) -> Option<Doc> {
    match d {
        Doc::Obj(m) => if m.dom().contains(k) {
            Some(m[k])
        } else {
            None
        },
        _ => None,
    }
}

/// The set of keys of a sequence of object entries.
pub open spec fn keys_of(es: Seq<(String, Value)>) -> Set<Seq<char>> {
    Set::new(|k: Seq<char>| has_key(es, k))
}

/// With distinct keys, `index_of_key` of the key at `i` is `i` itself.
pub proof fn lemma_index_of_key_unique(es: Seq<(String, Value)>, i: int)
    requires
        keys_distinct(es),
        0 <= i < es.len(),
    ensures
        has_key(es, es[i].0@),
        index_of_key(es, es[i].0@) == i,
        obj_model(es).dom().contains(es[i].0@),
        obj_model(es)[es[i].0@] == doc_of(es[i].1),
{
    let k = es[i].0@;
    assert(has_key(es, k));
    let j = index_of_key(es, k);
    assert(0 <= j < es.len() && es[j].0@ == k);
    if j < i {
        assert(es[j].0@ != es[i].0@);
    }
    if i < j {
        assert(es[i].0@ != es[j].0@);
    }
}

/// Removing the entry at `j` removes exactly its key from the modelled map.
pub proof fn lemma_obj_model_remove(es: Seq<(String, Value)>, j: int)
    requires
        keys_distinct(es),
        0 <= j < es.len(),
    ensures
        keys_distinct(es.remove(j)),
        forall|m: int| 0 <= m < es.remove(j).len() ==> (#[trigger] es.remove(j)[m]).1.wf()
            == (if m < j { es[m].1.wf() } else { es[m + 1].1.wf() }),
        obj_model(es.remove(j)) == obj_model(es).remove(es[j].0@),
{
    let k = es[j].0@;
    let es2 = es.remove(j);
    assert(es2.len() == es.len() - 1);
    assert forall|m: int| 0 <= m < es2.len() implies #[trigger] es2[m] == (if m < j {
        es[m]
    } else {
        es[m + 1]
    }) by {}
    assert forall|k2: Seq<char>| #[trigger] has_key(es2, k2) implies has_key(es, k2) && k2 != k by {
        let m = choose|m: int| 0 <= m < es2.len() && es2[m].0@ == k2;
        let m0: int = if m < j {
            m
        } else {
            m + 1
        };
        assert(es[m0].0@ == k2);
        assert(has_key(es, k2));
        if k2 == k {
            lemma_index_of_key_unique(es, j);
            lemma_index_of_key_unique(es, m0);
            assert(false);
        }
    }
    assert forall|k2: Seq<char>| has_key(es, k2) && k2 != k implies #[trigger] has_key(
        es2,
        k2,
    ) by {
        let m0 = choose|m0: int| 0 <= m0 < es.len() && es[m0].0@ == k2;
        if m0 < j {
            assert(es2[m0].0@ == k2);
        } else {
            assert(m0 != j);
            assert(es2[m0 - 1].0@ == k2);
        }
    }
    assert forall|k2: Seq<char>| has_key(es2, k2) implies #[trigger] obj_model(es2)[k2]
        == obj_model(es)[k2] by {
        let m = index_of_key(es2, k2);
        assert(0 <= m < es2.len() && es2[m].0@ == k2);
        let m0: int = if m < j {
            m
        } else {
            m + 1
        };
        lemma_index_of_key_unique(es2, m);
        lemma_index_of_key_unique(es, m0);
        assert(obj_model(es2)[k2] == doc_of(es2[m].1));
        assert(obj_model(es)[k2] == doc_of(es[m0].1));
    }
    assert(obj_model(es2) =~= obj_model(es).remove(k));
}

/// Appending an entry with a fresh key inserts exactly that key.
pub proof fn lemma_obj_model_push(es: Seq<(String, Value)>, p: (String, Value))
    requires
        keys_distinct(es),
        !has_key(es, p.0@),
    ensures
        keys_distinct(es.push(p)),
        obj_model(es.push(p)) == obj_model(es).insert(p.0@, doc_of(p.1)),
{
    let k = p.0@;
    let es2 = es.push(p);
    assert forall|i: int, j: int| 0 <= i < j < es2.len() implies es2[i].0@ != es2[j].0@ by {
        if j == es.len() {
            assert(es2[i] == es[i]);
            if es[i].0@ == k {
                assert(has_key(es, k));
            }
        } else {
            assert(es2[i] == es[i]);
            assert(es2[j] == es[j]);
        }
    }
    assert forall|k2: Seq<char>| #[trigger] has_key(es2, k2) implies has_key(es, k2) || k2
        == k by {
        let m = choose|m: int| 0 <= m < es2.len() && es2[m].0@ == k2;
        if m < es.len() {
            assert(es[m].0@ == k2);
        }
    }
    assert forall|k2: Seq<char>| has_key(es, k2) implies #[trigger] has_key(es2, k2) by {
        let m = choose|m: int| 0 <= m < es.len() && es[m].0@ == k2;
        assert(es2[m].0@ == k2);
    }
    assert(es2[es.len() as int].0@ == k);
    assert(has_key(es2, k));
    assert forall|k2: Seq<char>| has_key(es2, k2) implies #[trigger] obj_model(es2)[k2] == (if k2
        == k {
        doc_of(p.1)
    } else {
        obj_model(es)[k2]
    }) by {
        let m = index_of_key(es2, k2);
        assert(0 <= m < es2.len() && es2[m].0@ == k2);
        lemma_index_of_key_unique(es2, m);
        if k2 == k {
            lemma_index_of_key_unique(es2, es.len() as int);
            assert(m == es.len());
            assert(obj_model(es2)[k2] == doc_of(p.1));
        } else {
            assert(m < es.len());
            assert(es[m].0@ == k2);
            lemma_index_of_key_unique(es, m);
            assert(obj_model(es2)[k2] == doc_of(es2[m].1));
            assert(obj_model(es)[k2] == doc_of(es[m].1));
        }
    }
    assert(obj_model(es2) =~= obj_model(es).insert(k, doc_of(p.1)));
}

/// Entries with pointwise equal keys and pointwise equal value models model
/// the same map.
pub proof fn lemma_obj_model_congruence(es1: Seq<(String, Value)>, es2: Seq<(String, Value)>)
    requires
        keys_distinct(es1),
        es1.len() == es2.len(),
        forall|i: int| 0 <= i < es1.len() ==> (#[trigger] es2[i]).0@ == es1[i].0@,
        forall|i: int| 0 <= i < es1.len() ==> doc_of((#[trigger] es2[i]).1) == doc_of(es1[i].1),
    ensures
        keys_distinct(es2),
        obj_model(es2) == obj_model(es1),
{
    assert forall|k: Seq<char>| #[trigger] has_key(es1, k) implies has_key(es2, k) by {
        let m = choose|m: int| 0 <= m < es1.len() && es1[m].0@ == k;
        assert(es2[m].0@ == k);
    }
    assert forall|k: Seq<char>| #[trigger] has_key(es2, k) implies has_key(es1, k) by {
        let m = choose|m: int| 0 <= m < es2.len() && es2[m].0@ == k;
        assert(es1[m].0@ == k);
    }
    assert forall|k: Seq<char>| has_key(es1, k) implies #[trigger] obj_model(es2)[k] == obj_model(
        es1,
    )[k] by {
        let m1 = index_of_key(es1, k);
        assert(0 <= m1 < es1.len() && es1[m1].0@ == k);
        let m2 = index_of_key(es2, k);
        assert(0 <= m2 < es2.len() && es2[m2].0@ == k);
        assert(es1[m2].0@ == k);
        lemma_index_of_key_unique(es1, m1);
        lemma_index_of_key_unique(es1, m2);
        assert(m1 == m2);
    }
    assert(obj_model(es2) =~= obj_model(es1));
}

/// One step of key accumulation: the keys of a prefix extended by one entry.
pub proof fn lemma_keys_of_step(es: Seq<(String, Value)>, i: int)
    requires
        0 <= i < es.len(),
    ensures
        keys_of(es.subrange(0, i + 1)) == keys_of(es.subrange(0, i)).insert(es[i].0@),
{
    let a = es.subrange(0, i);
    let b = es.subrange(0, i + 1);
    assert(b =~= a.push(es[i]));
    assert forall|k: Seq<char>| #[trigger] has_key(b, k) implies has_key(a, k) || k
        == es[i].0@ by {
        let m = choose|m: int| 0 <= m < b.len() && b[m].0@ == k;
        if m < i {
            assert(a[m].0@ == k);
        }
    }
    assert forall|k: Seq<char>| has_key(a, k) implies #[trigger] has_key(b, k) by {
        let m = choose|m: int| 0 <= m < a.len() && a[m].0@ == k;
        assert(b[m].0@ == k);
    }
    assert(b[i].0@ == es[i].0@);
    assert(has_key(b, es[i].0@));
    assert(keys_of(b) =~= keys_of(a).insert(es[i].0@));
}

/// Merge application is order-sensitive in content: a later patch that sets
/// key `k` to `Null` removes `k` even when an earlier patch set it to a
/// value, while applying only the earlier patch keeps `k`.
pub proof fn lemma_null_clears_key(target: Doc, p1: Doc, p2: Doc, k: Seq<char>)
    requires
        p1 is Obj,
        p1->Obj_0.dom().contains(k),
        !(p1->Obj_0[k] is Null),
        p2 is Obj,
        p2->Obj_0.dom().contains(k),
        p2->Obj_0[k] is Null,
    ensures
        doc_get(merge(target, p1), k) is Some,
        doc_get(merge(merge(target, p1), p2), k) is None,
{
    lemma_merge_obj(target, p1);
    lemma_merge_obj(merge(target, p1), p2);
}

/// Merge-patch is idempotent: folding the same patch twice in direct
/// succession yields the same result as folding it once.
pub proof fn lemma_merge_idempotent(target: Doc, patch: Doc)
    ensures
        merge(merge(target, patch), patch) == merge(target, patch),
    decreases patch,
{
    match patch {
        Doc::Obj(pm) => {
            let tm = target_obj(target);
            let r1 = merged_obj(tm, pm);
            let r2 = merged_obj(r1, pm);
            lemma_merge_obj(target, patch);
            lemma_merge_obj(Doc::Obj(r1), patch);
            assert forall|k: Seq<char>|
                #[trigger] pm.dom().contains(k) && !(pm[k] is Null) implies r2[k] == r1[k] by {
                let tk = if tm.dom().contains(k) {
                    tm[k]
                } else {
                    Doc::Null
                };
                lemma_merge_idempotent(tk, pm[k]);
            }
            assert(r2 =~= r1);
        },
        _ => {},
    }
}

/// Index of the entry of `es` with key `key`, when one exists.
fn find_key(es: &Vec<(String, Value)>, key: &String) -> (r: Option<usize>)
    ensures
        match r {
            Some(j) => j < es@.len() && es@[j as int].0@ == key@,
            None => !has_key(es@, key@),
        },
{
    let mut i: usize = 0;
    while i < es.len()
        invariant
            i <= es@.len(),
            forall|m: int| 0 <= m < i ==> (#[trigger] es@[m]).0@ != key@,
        decreases es@.len() - i,
    {
        if es[i].0 == *key {
            return Some(i);
        }
        i += 1;
    }
    None
}

impl Value {
    /// Whether this value is the explicit `Null`.
    pub fn is_null(&self) -> (r: bool)
        ensures
            r == (self@ is Null),
    {
        match self {
            Value::Null => true,
            _ => false,
        }
    }

    /// A structurally fresh copy with the same model.
    #[verifier::loop_isolation(false)]
    pub fn deep_clone(&self) -> (r: Value)
        requires
            self.wf(),
        ensures
            r@ == self@,
            r.wf(),
        decreases self,
    {
        match self {
            Value::Null => Value::Null,
            Value::Bool(b) => Value::Bool(*b),
            Value::Int(n) => Value::Int(*n),
            Value::Str(s) => Value::Str(s.clone()),
            Value::Arr(vs) => {
                let mut out: Vec<Value> = Vec::new();
                let mut i: usize = 0;
                while i < vs.len()
                    invariant
                        i <= vs@.len(),
                        out@.len() == i,
                        forall|m: int| 0 <= m < vs@.len() ==> (#[trigger] vs@[m]).wf(),
                        forall|m: int| 0 <= m < i ==> (#[trigger] out@[m])@ == vs@[m]@,
                        forall|m: int| 0 <= m < i ==> (#[trigger] out@[m]).wf(),
                    decreases vs@.len() - i,
                {
                    let c = vs[i].deep_clone();
                    out.push(c);
                    i += 1;
                }
                proof {
                    assert(doc_of(Value::Arr(out))->Arr_0 =~= doc_of(*self)->Arr_0);
                }
                Value::Arr(out)
            },
            Value::Obj(es) => {
                let mut out: Vec<(String, Value)> = Vec::new();
                let mut i: usize = 0;
                while i < es.len()
                    invariant
                        i <= es@.len(),
                        out@.len() == i,
                        keys_distinct(es@),
                        forall|m: int| 0 <= m < es@.len() ==> (#[trigger] es@[m]).1.wf(),
                        forall|m: int| 0 <= m < i ==> (#[trigger] out@[m]).0@ == es@[m].0@,
                        forall|m: int| 0 <= m < i ==> (#[trigger] out@[m]).1@ == es@[m].1@,
                        forall|m: int| 0 <= m < i ==> (#[trigger] out@[m]).1.wf(),
                    decreases es@.len() - i,
                {
                    let k = es[i].0.clone();
                    let c = es[i].1.deep_clone();
                    out.push((k, c));
                    i += 1;
                }
                proof {
                    lemma_obj_model_congruence(es@, out@);
                    lemma_doc_of_obj(out);
                    lemma_doc_of_obj(*es);
                    assert(doc_of(*self) == Doc::Obj(obj_model(es@)));
                }
                Value::Obj(out)
            },
        }
    }

    /// Merge-patch `patch` into `self`: the executable form of `merge`.
    #[verifier::loop_isolation(false)]
    pub fn merge_patch(self, patch: &Value) -> (r: Value)
        requires
            self.wf(),
            patch.wf(),
        ensures
            r.wf(),
            r@ == merge(self@, patch@),
        decreases patch,
    {
        let ghost tdoc = self@;
        match patch {
            Value::Obj(pp) => {
                let ghost tm = target_obj(tdoc);
                let ghost pm = obj_model(pp@);
                proof {
                    lemma_doc_of_obj(*pp);
                    assert(keys_distinct(pp@));
                    assert(patch@ == Doc::Obj(pm));
                }
                let mut acc: Vec<(String, Value)>;
                match self {
                    Value::Obj(es) => {
                        proof {
                            lemma_doc_of_obj(es);
                        }
                        acc = es;
                    },
                    _ => {
                        acc = Vec::new();
                        proof {
                            assert(tdoc !is Obj);
                            assert(obj_model(acc@) =~= tm);
                        }
                    },
                }
                proof {
                    assert(obj_model(acc@) == tm);
                    assert(obj_model(acc@) =~= merged_obj(
                        tm,
                        pm.restrict(keys_of(pp@.subrange(0, 0))),
                    ));
                }
                let mut i: usize = 0;
                while i < pp.len()
                    invariant
                        i <= pp@.len(),
                        keys_distinct(acc@),
                        forall|m: int| 0 <= m < acc@.len() ==> (#[trigger] acc@[m]).1.wf(),
                        obj_model(acc@) == merged_obj(
                            tm,
                            pm.restrict(keys_of(pp@.subrange(0, i as int))),
                        ),
                    decreases pp@.len() - i,
                {
                    let ghost kss = keys_of(pp@.subrange(0, i as int));
                    let ghost k = pp@[i as int].0@;
                    proof {
                        lemma_index_of_key_unique(pp@, i as int);
                        lemma_keys_of_step(pp@, i as int);
                        if has_key(pp@.subrange(0, i as int), k) {
                            let m = choose|m: int|
                                0 <= m < i && pp@.subrange(0, i as int)[m].0@ == k;
                            assert(pp@[m].0@ == k);
                            assert(false);
                        }
                        assert(pm.restrict(kss.insert(k)) =~= pm.restrict(kss).insert(k, pm[k]));
                    }
                    let pv = &pp[i].1;
                    let jopt = find_key(&acc, &pp[i].0);
                    if pv.is_null() {
                        if let Some(j) = jopt {
                            let ghost acc0 = acc@;
                            proof {
                                lemma_index_of_key_unique(acc0, j as int);
                                lemma_obj_model_remove(acc0, j as int);
                            }
                            let _ = acc.remove(j);
                            proof {
                                assert(obj_model(acc@) =~= merged_obj(
                                    tm,
                                    pm.restrict(kss.insert(k)),
                                ));
                            }
                        } else {
                            proof {
                                assert(!obj_model(acc@).dom().contains(k));
                                assert(obj_model(acc@) =~= merged_obj(
                                    tm,
                                    pm.restrict(kss.insert(k)),
                                ));
                            }
                        }
                    } else {
                        match jopt {
                            Some(j) => {
                                let ghost acc0 = acc@;
                                proof {
                                    lemma_index_of_key_unique(acc0, j as int);
                                    lemma_obj_model_remove(acc0, j as int);
                                }
                                let pair = acc.remove(j);
                                let merged = pair.1.merge_patch(pv);
                                let ghost key0 = pair.0;
                                let ghost acc1 = acc@;
                                proof {
                                    if has_key(acc1, k) {
                                        assert(obj_model(acc1).dom().contains(k));
                                        assert(false);
                                    }
                                    lemma_obj_model_push(acc1, (key0, merged));
                                }
                                acc.push((pair.0, merged));
                                proof {
                                    assert(obj_model(acc@) =~= merged_obj(
                                        tm,
                                        pm.restrict(kss.insert(k)),
                                    ));
                                }
                            },
                            None => {
                                let merged = Value::Null.merge_patch(pv);
                                let kstr = pp[i].0.clone();
                                let ghost key0 = kstr;
                                let ghost acc1 = acc@;
                                proof {
                                    assert(!obj_model(acc1).dom().contains(k));
                                    lemma_obj_model_push(acc1, (key0, merged));
                                }
                                acc.push((kstr, merged));
                                proof {
                                    assert(obj_model(acc@) =~= merged_obj(
                                        tm,
                                        pm.restrict(kss.insert(k)),
                                    ));
                                }
                            },
                        }
                    }
                    i += 1;
                }
                proof {
                    assert(pp@.subrange(0, pp@.len() as int) =~= pp@);
                    assert(keys_of(pp@) =~= pm.dom());
                    assert(pm.restrict(pm.dom()) =~= pm);
                    assert(obj_model(acc@) == merged_obj(tm, pm));
                    lemma_doc_of_obj(acc);
                    lemma_merge_obj(tdoc, patch@);
                }
                Value::Obj(acc)
            },
            _ => {
                proof {
                    assert(patch@ !is Obj);
                    assert(merge(tdoc, patch@) == patch@);
                }
                patch.deep_clone()
            },
        }
    }

    /// The entry of an object under `key`, when there is one; `None` when the
    /// value is not an object or has no such key.
    pub fn get<'a>(&'a self, key: &String) -> (r: Option<&'a Value>)
        requires
            self.wf(),
        ensures
            match r {
                Some(v) => self@ is Obj && self@->Obj_0.dom().contains(key@) && v@
                    == self@->Obj_0[key@],
                None => !(self@ is Obj && self@->Obj_0.dom().contains(key@)),
            },
    {
        match self {
            Value::Obj(es) => {
                proof {
                    lemma_doc_of_obj(*es);
                }
                match find_key(es, key) {
                    Some(j) => {
                        proof {
                            lemma_index_of_key_unique(es@, j as int);
                        }
                        Some(&es[j].1)
                    },
                    None => None,
                }
            },
            _ => None,
        }
    }
}

} // verus!
