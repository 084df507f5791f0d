use vstd::prelude::*;

verus! {

/// Why an operation on the scope chain was refused.
#[derive(PartialEq, Eq, Structural, Clone, Copy, Debug)]
pub enum BindingError {
    /// No visible binding has the name.
    UnknownName,
    /// The visible binding for the name was declared immutable.
    ImmutableBinding,
    /// `exit_scope` was called with only the root scope open.
    ScopeUnderflow,
}

/// The abstract content of one binding.
pub struct Entry {
    pub name: Seq<char>,
    pub value: i64,
    pub mutable: bool,
}

/// The abstract scope chain: every live binding in order of declaration,
/// outermost scope first, and for each open scope beyond the root the
/// position in `entries` at which it starts.
pub struct Chain {
    pub entries: Seq<Entry>,
    pub marks: Seq<int>,
}

/// Index of the binding that `name` resolves to: the most recently declared
/// live binding with that name. Later entries belong to the same or to an
/// inner scope, so this is also the innermost-first search.
pub open spec fn visible_index(entries: Seq<Entry>, name: Seq<char>) -> Option<int>
    decreases entries.len(),
{
    if entries.len() == 0 {
        None
    } else if entries.last().name == name {
        Some(entries.len() - 1)
    } else {
        visible_index(entries.drop_last(), name)
    }
}

impl Chain {
    /// Scope starts never decrease and never pass the end of the bindings.
    pub open spec fn wf(self) -> bool {
        &&& forall|i: int| 0 <= i < self.marks.len() ==> 0 <= #[trigger] self.marks[i] <= self.entries.len()
        &&& forall|i: int, j: int| 0 <= i < j < self.marks.len() ==> self.marks[i] <= self.marks[j]
    }

    /// The chain with only the root scope, holding nothing.
    pub open spec fn empty() -> Chain {
        Chain { entries: Seq::empty(), marks: Seq::empty() }
    }

    pub open spec fn declare(self, name: Seq<char>, value: i64, mutable: bool) -> Chain {
        Chain {
            entries: self.entries.push(Entry { name, value, mutable }),
            marks: self.marks,
        }
    }

    pub open spec fn lookup(self, name: Seq<char>) -> Result<i64, BindingError> {
        match visible_index(self.entries, name) {
            Some(i) => Ok(self.entries[i].value),
            None => Err(BindingError::UnknownName),
        }
    }

    /// The chain after a reassignment, and its outcome; on failure the chain
    /// is unchanged.
    pub open spec fn reassign(self, name: Seq<char>, value: i64) -> (Chain, Result<(), BindingError>) {
        match visible_index(self.entries, name) {
            None => (self, Err(BindingError::UnknownName)),
            Some(i) => if !self.entries[i].mutable {
                (self, Err(BindingError::ImmutableBinding))
            } else {
                let e = self.entries[i];
                (
                    Chain {
                        entries: self.entries.update(i, Entry { name: e.name, value, mutable: e.mutable }),
                        marks: self.marks,
                    },
                    Ok(()),
                )
            },
        }
    }

    pub open spec fn enter_scope(self) -> Chain {
        Chain { entries: self.entries, marks: self.marks.push(self.entries.len() as int) }
    }

    /// The chain after leaving the innermost scope, and its outcome; at the
    /// root the chain is unchanged.
    pub open spec fn exit_scope(self) -> (Chain, Result<(), BindingError>) {
        if self.marks.len() == 0 {
            (self, Err(BindingError::ScopeUnderflow))
        } else {
            (
                Chain {
                    entries: self.entries.subrange(0, self.marks.last()),
                    marks: self.marks.drop_last(),
                },
                Ok(()),
            )
        }
    }
}

/// One binding of a name to a value.
pub struct Binding {
    pub name: String,
    pub value: i64,
    pub mutable: bool,
}

impl View for Binding {
    type V = Entry;

    open spec fn view(&self) -> Entry {
        Entry { name: self.name@, value: self.value, mutable: self.mutable }
    }
}

/// A lexical scope chain in which names are declared, shadowed, reassigned
/// and looked up.
pub struct Evaluator {
    bindings: Vec<Binding>,
    marks: Vec<usize>,
}

impl View for Evaluator {
    type V = Chain;

    closed spec fn view(&self) -> Chain {
        Chain {
            entries: self.bindings@.map_values(|b: Binding| b@),
            marks: self.marks@.map_values(|m: usize| m as int),
        }
    }
}

proof fn lemma_visible_index_step(entries: Seq<Entry>, name: Seq<char>, k: int)
    requires
        0 < k <= entries.len(),
    ensures
        visible_index(entries.subrange(0, k), name) == if entries[k - 1].name == name {
            Some(k - 1)
        } else {
            visible_index(entries.subrange(0, k - 1), name)
        },
{
    assert(entries.subrange(0, k).drop_last() =~= entries.subrange(0, k - 1));
}

impl Evaluator {
    pub closed spec fn wf(&self) -> bool {
        self@.wf()
    }

    /// An evaluator with only the root scope open and no bindings.
    pub fn new() -> (r: Evaluator)
        ensures
            r.wf(),
            r@ == Chain::empty(),
    {
        let r = Evaluator { bindings: Vec::new(), marks: Vec::new() };
        assert(r@.entries =~= Seq::<Entry>::empty());
        assert(r@.marks =~= Seq::<int>::empty());
        r
    }

    /// Number of scopes open beyond the root.
    pub fn depth(&self) -> (r: usize)
        ensures
            r == self@.marks.len(),
    {
        self.marks.len()
    }

    /// Position of the binding that `name` resolves to.
    fn find(&self, name: &str) -> (r: Option<usize>)
        ensures
            match r {
                Some(i) => visible_index(self@.entries, name@) == Some(i as int) && i < self.bindings@.len(),
                None => visible_index(self@.entries, name@) == None::<int>,
            },
    {
        let key = name.to_owned();
        let mut k: usize = self.bindings.len();
        assert(self@.entries.subrange(0, k as int) =~= self@.entries);
        while k > 0
            invariant
                k <= self.bindings@.len(),
                self@.entries.len() == self.bindings@.len(),
                key@ == name@,
                visible_index(self@.entries, name@) == visible_index(self@.entries.subrange(0, k as int), name@),
            decreases k,
        {
            proof {
                lemma_visible_index_step(self@.entries, name@, k as int);
            }
            if self.bindings[k - 1].name == key {
                return Some(k - 1);
            }
            k -= 1;
        }
        None
    }

    /// Introduces a new binding in the innermost scope; it shadows every
    /// earlier binding of the same name while its scope is open.
    pub fn declare(&mut self, name: &str, value: i64, mutable: bool)
        requires
            old(self).wf(),
        ensures
            final(self).wf(),
            final(self)@ == old(self)@.declare(name@, value, mutable),
    {
        self.bindings.push(Binding { name: name.to_owned(), value, mutable });
        assert(self@.entries =~= old(self)@.entries.push(Entry { name: name@, value, mutable }));
        assert(self@.marks =~= old(self)@.marks);
    }

    /// The value of the binding that `name` resolves to.
    pub fn lookup(&self, name: &str) -> (r: Result<i64, BindingError>)
        ensures
            r == self@.lookup(name@),
    {
        match self.find(name) {
            Some(i) => Ok(self.bindings[i].value),
            None => Err(BindingError::UnknownName),
        }
    }

    /// Replaces in place the value of the binding that `name` resolves to,
    /// if that binding is mutable.
    pub fn reassign(&mut self, name: &str, value: i64) -> (r: Result<(), BindingError>)
        requires
            old(self).wf(),
        ensures
            final(self).wf(),
            (final(self)@, r) == old(self)@.reassign(name@, value),
    {
        match self.find(name) {
            None => Err(BindingError::UnknownName),
            Some(i) => {
                if !self.bindings[i].mutable {
                    Err(BindingError::ImmutableBinding)
                } else {
                    self.bindings[i].value = value;
                    let ghost e = old(self)@.entries[i as int];
                    assert(self@.entries =~= old(self)@.entries.update(
                        i as int,
                        Entry { name: e.name, value, mutable: e.mutable },
                    ));
                    assert(self@.marks =~= old(self)@.marks);
                    Ok(())
                }
            },
        }
    }

    /// Opens a nested scope.
    pub fn enter_scope(&mut self)
        requires
            old(self).wf(),
        ensures
            final(self).wf(),
            final(self)@ == old(self)@.enter_scope(),
    {
        let n = self.bindings.len();
        self.marks.push(n);
        assert(self@.entries =~= old(self)@.entries);
        assert(self@.marks =~= old(self)@.marks.push(n as int));
    }

    /// Closes the innermost scope and discards every binding declared in it.
    pub fn exit_scope(&mut self) -> (r: Result<(), BindingError>)
        requires
            old(self).wf(),
        ensures
            final(self).wf(),
            (final(self)@, r) == old(self)@.exit_scope(),
    {
        match self.marks.pop() {
            None => {
                assert(self@.marks =~= old(self)@.marks);
                Err(BindingError::ScopeUnderflow)
            },
            Some(m) => {
                assert(old(self)@.marks[old(self)@.marks.len() - 1] == m as int);
                self.bindings.truncate(m);
                assert(self@.entries =~= old(self)@.entries.subrange(0, m as int));
                assert(self@.marks =~= old(self)@.marks.drop_last());
                Ok(())
            },
        }
    }
}

} // verus!
