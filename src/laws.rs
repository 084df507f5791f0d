use vstd::prelude::*;

use crate::scope::{visible_index, BindingError, Chain, Entry};

verus! {

/// The chain after declaring each entry of `ds` in order.
pub open spec fn declare_all(c: Chain, ds: Seq<Entry>) -> Chain
    decreases ds.len(),
{
    if ds.len() == 0 {
        c
    } else {
        let d = ds.last();
        declare_all(c, ds.drop_last()).declare(d.name, d.value, d.mutable)
    }
}

proof fn lemma_declare_all_appends(c: Chain, ds: Seq<Entry>)
    ensures
        declare_all(c, ds).entries == c.entries + ds,
        declare_all(c, ds).marks == c.marks,
    decreases ds.len(),
{
    if ds.len() == 0 {
        assert(c.entries + ds =~= c.entries);
    } else {
        lemma_declare_all_appends(c, ds.drop_last());
        let d = ds.last();
        assert((c.entries + ds.drop_last()).push(Entry { name: d.name, value: d.value, mutable: d.mutable })
            =~= c.entries + ds);
    }
}

proof fn lemma_visible_index_concat(a: Seq<Entry>, b: Seq<Entry>, name: Seq<char>)
    ensures
        visible_index(a + b, name) == match visible_index(b, name) {
            Some(i) => Some(a.len() + i),
            None => visible_index(a, name),
        },
    decreases b.len(),
{
    if b.len() == 0 {
        assert(a + b =~= a);
    } else {
        assert((a + b).drop_last() =~= a + b.drop_last());
        lemma_visible_index_concat(a, b.drop_last(), name);
    }
}

proof fn lemma_visible_index_bounds(entries: Seq<Entry>, name: Seq<char>)
    ensures
        visible_index(entries, name) matches Some(i) ==> 0 <= i < entries.len() && entries[i].name == name,
    decreases entries.len(),
{
    if entries.len() > 0 {
        lemma_visible_index_bounds(entries.drop_last(), name);
    }
}

/// After any run of declarations, a name resolves to the value of its most
/// recent declaration in that run; a name that the run never declares
/// resolves as it did before.
pub proof fn lemma_lookup_returns_latest_declaration(c: Chain, ds: Seq<Entry>, name: Seq<char>)
    ensures
        declare_all(c, ds).lookup(name) == match visible_index(ds, name) {
            Some(i) => Ok(ds[i].value),
            None => c.lookup(name),
        },
{
    lemma_declare_all_appends(c, ds);
    lemma_visible_index_concat(c.entries, ds, name);
    lemma_visible_index_bounds(ds, name);
    lemma_visible_index_bounds(c.entries, name);
    let e = c.entries + ds;
    match visible_index(ds, name) {
        Some(i) => {
            assert(e[c.entries.len() + i] == ds[i]);
        },
        None => {
            if let Some(j) = visible_index(c.entries, name) {
                assert(e[j] == c.entries[j]);
            }
        },
    }
}

/// A second declaration of a name hides the first: lookups see the new
/// value, and a reassignment acts on the new binding alone, succeeding or
/// failing by its mutability whatever the hidden binding's was.
pub proof fn lemma_shadowing_hides_earlier(
    c: Chain,
    name: Seq<char>,
    v1: i64,
    m1: bool,
    v2: i64,
    m2: bool,
    w: i64,
)
    ensures
        ({
            let s = c.declare(name, v1, m1).declare(name, v2, m2);
            let (t, r) = s.reassign(name, w);
            &&& s.lookup(name) == Ok::<i64, BindingError>(v2)
            &&& r == if m2 {
                Ok::<(), BindingError>(())
            } else {
                Err(BindingError::ImmutableBinding)
            }
            &&& t.entries[c.entries.len() as int] == Entry { name, value: v1, mutable: m1 }
            &&& m2 ==> t.lookup(name) == Ok::<i64, BindingError>(w)
        }),
{
    let s = c.declare(name, v1, m1).declare(name, v2, m2);
    assert(s.entries.last().name == name);
    let t = s.reassign(name, w).0;
    assert(t.entries.len() == s.entries.len());
    assert(t.entries.last().name == name);
}

/// Leaving a scope undoes everything declared in it: entering a scope,
/// declaring anything, and leaving it gives back the chain as it was, so
/// every name resolves as before.
pub proof fn lemma_exit_scope_restores(c: Chain, ds: Seq<Entry>)
    ensures
        declare_all(c.enter_scope(), ds).exit_scope() == (c, Ok::<(), BindingError>(())),
{
    let inner = declare_all(c.enter_scope(), ds);
    lemma_declare_all_appends(c.enter_scope(), ds);
    let out = inner.exit_scope().0;
    assert(out.entries =~= c.entries);
    assert(out.marks =~= c.marks);
}

/// A binding declared immutable refuses reassignment, and keeps its value.
pub proof fn lemma_immutable_refuses_reassign(c: Chain, name: Seq<char>, v: i64, w: i64)
    ensures
        ({
            let s = c.declare(name, v, false);
            &&& s.reassign(name, w) == (s, Err::<(), BindingError>(BindingError::ImmutableBinding))
            &&& s.lookup(name) == Ok::<i64, BindingError>(v)
        }),
{
    let s = c.declare(name, v, false);
    assert(s.entries.last().name == name);
}

/// A binding declared mutable takes a reassigned value.
pub proof fn lemma_mutable_takes_reassign(c: Chain, name: Seq<char>, v: i64, w: i64)
    ensures
        ({
            let (t, r) = c.declare(name, v, true).reassign(name, w);
            &&& r == Ok::<(), BindingError>(())
            &&& t.lookup(name) == Ok::<i64, BindingError>(w)
        }),
{
    let s = c.declare(name, v, true);
    assert(s.entries.last().name == name);
    let t = s.reassign(name, w).0;
    assert(t.entries.last().name == name);
}

/// With no scope open beyond the root, leaving a scope fails and changes
/// nothing.
pub proof fn lemma_exit_at_root_underflows(c: Chain)
    requires
        c.marks.len() == 0,
    ensures
        c.exit_scope() == (c, Err::<(), BindingError>(BindingError::ScopeUnderflow)),
{
}

} // verus!
