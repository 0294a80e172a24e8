//! The gradient tape and the identity-keyed store of gradient buffers.

use crate::phantom::PhantomTensor;
use crate::unique_id::UniqueId;
use vstd::prelude::*;

verus! {

/// Why an access to a [`Gradients`] store was refused.
#[derive(Clone, Copy, Debug, PartialEq, Eq, Structural)]
pub enum GradientError {
    /// No gradient is recorded for the identity.
    Lookup,
    /// Two arguments that must be distinct share an identity.
    IdentityCollision,
    /// The stored buffer does not have the shape the tensor declares.
    Type,
}

#[derive(Debug)]
struct GradientEntry<E> {
    id: UniqueId,
    data: Vec<E>,
}

/// A container holding one gradient buffer per tensor identity.
///
/// Buffers are created lazily, filled with the store's zero value, the first
/// time a tensor's gradient is accessed mutably.
#[derive(Debug)]
pub struct Gradients<E> {
    entries: Vec<GradientEntry<E>>,
    zero: E,
}

spec fn entries_view<E>(s: Seq<GradientEntry<E>>) -> Map<UniqueId, Seq<E>> {
    Map::new(
        |k: UniqueId| exists|i: int| 0 <= i < s.len() && s[i].id == k,
        |k: UniqueId| s[choose|i: int| 0 <= i < s.len() && s[i].id == k].data@,
    )
}

spec fn entries_wf<E>(s: Seq<GradientEntry<E>>) -> bool {
    forall|i: int, j: int| 0 <= i < j < s.len() ==> s[i].id != s[j].id
}

proof fn lemma_entry<E>(s: Seq<GradientEntry<E>>, i: int)
    requires
        entries_wf(s),
        0 <= i < s.len(),
    ensures
        entries_view(s).contains_key(s[i].id),
        entries_view(s)[s[i].id] == s[i].data@,
{
    let k = s[i].id;
    assert(exists|j: int| 0 <= j < s.len() && s[j].id == k);
    let j = choose|j: int| 0 <= j < s.len() && s[j].id == k;
    if j != i {
        if j < i {
            assert(s[j].id != s[i].id);
        } else {
            assert(s[i].id != s[j].id);
        }
    }
}

proof fn lemma_update<E>(s: Seq<GradientEntry<E>>, i: int, d: Vec<E>)
    requires
        entries_wf(s),
        0 <= i < s.len(),
    ensures
        entries_wf(s.update(i, GradientEntry { id: s[i].id, data: d })),
        entries_view(s.update(i, GradientEntry { id: s[i].id, data: d })) == entries_view(s).insert(
            s[i].id,
            d@,
        ),
{
    let t = s.update(i, GradientEntry { id: s[i].id, data: d });
    let k = s[i].id;
    assert(entries_wf(t));
    assert forall|j: int| 0 <= j < s.len() implies entries_view(t).contains_key(t[j].id)
        && entries_view(t)[t[j].id] == t[j].data@ && entries_view(s).contains_key(s[j].id)
        && entries_view(s)[s[j].id] == s[j].data@ by {
        lemma_entry(t, j);
        lemma_entry(s, j);
    }
    assert(entries_view(t) =~= entries_view(s).insert(k, d@)) by {
        assert forall|key: UniqueId| #[trigger] entries_view(t).contains_key(key) <==> entries_view(
            s,
        ).insert(k, d@).contains_key(key) by {
            if entries_view(t).contains_key(key) {
                let j = choose|j: int| 0 <= j < t.len() && t[j].id == key;
                assert(s[j].id == key);
            }
            if entries_view(s).contains_key(key) {
                let j = choose|j: int| 0 <= j < s.len() && s[j].id == key;
                assert(t[j].id == key);
            }
        }
    }
}

proof fn lemma_update_all<E>(s: Seq<GradientEntry<E>>, i: int)
    requires
        entries_wf(s),
        0 <= i < s.len(),
    ensures
        forall|d: Vec<E>|
            #![trigger s.update(i, GradientEntry { id: s[i].id, data: d })]
            entries_wf(s.update(i, GradientEntry { id: s[i].id, data: d })) && entries_view(
                s.update(i, GradientEntry { id: s[i].id, data: d }),
            ) == entries_view(s).insert(s[i].id, d@),
{
    assert forall|d: Vec<E>|
        #![trigger s.update(i, GradientEntry { id: s[i].id, data: d })]
        entries_wf(s.update(i, GradientEntry { id: s[i].id, data: d })) && entries_view(
            s.update(i, GradientEntry { id: s[i].id, data: d }),
        ) == entries_view(s).insert(s[i].id, d@) by {
        lemma_update(s, i, d);
    }
}

proof fn lemma_push<E>(s: Seq<GradientEntry<E>>, e: GradientEntry<E>)
    requires
        entries_wf(s),
        !entries_view(s).contains_key(e.id),
    ensures
        entries_wf(s.push(e)),
        entries_view(s.push(e)) == entries_view(s).insert(e.id, e.data@),
{
    let t = s.push(e);
    assert forall|i: int, j: int| 0 <= i < j < t.len() implies t[i].id != t[j].id by {
        if j == s.len() {
            assert(!(0 <= i < s.len() && s[i].id == e.id));
        }
    }
    assert forall|j: int| 0 <= j < t.len() implies entries_view(t).contains_key(t[j].id)
        && entries_view(t)[t[j].id] == t[j].data@ by {
        lemma_entry(t, j);
    }
    assert forall|j: int| 0 <= j < s.len() implies entries_view(s).contains_key(s[j].id)
        && entries_view(s)[s[j].id] == s[j].data@ by {
        lemma_entry(s, j);
    }
    assert(entries_view(t) =~= entries_view(s).insert(e.id, e.data@)) by {
        assert forall|key: UniqueId| #[trigger] entries_view(t).contains_key(key) <==> entries_view(
            s,
        ).insert(e.id, e.data@).contains_key(key) by {
            if key == e.id {
                assert(t[s.len() as int].id == key);
            }
            if entries_view(t).contains_key(key) && key != e.id {
                let j = choose|j: int| 0 <= j < t.len() && t[j].id == key;
                assert(j < s.len());
            }
            if entries_view(s).contains_key(key) {
                let j = choose|j: int| 0 <= j < s.len() && s[j].id == key;
                assert(t[j].id == key);
            }
        }
    }
}

proof fn lemma_remove<E>(s: Seq<GradientEntry<E>>, i: int)
    requires
        entries_wf(s),
        0 <= i < s.len(),
    ensures
        entries_wf(s.remove(i)),
        entries_view(s.remove(i)) == entries_view(s).remove(s[i].id),
{
    let t = s.remove(i);
    let k = s[i].id;
    assert forall|a: int, b: int| 0 <= a < b < t.len() implies t[a].id != t[b].id by {
        let a2 = if a < i { a } else { a + 1 };
        let b2 = if b < i { b } else { b + 1 };
        assert(s[a2].id != s[b2].id);
    }
    assert forall|j: int| 0 <= j < t.len() implies entries_view(t).contains_key(t[j].id)
        && entries_view(t)[t[j].id] == t[j].data@ by {
        lemma_entry(t, j);
    }
    assert forall|j: int| 0 <= j < s.len() implies entries_view(s).contains_key(s[j].id)
        && entries_view(s)[s[j].id] == s[j].data@ by {
        lemma_entry(s, j);
    }
    assert(entries_view(t) =~= entries_view(s).remove(k)) by {
        assert forall|key: UniqueId| #[trigger] entries_view(t).contains_key(key) <==> entries_view(
            s,
        ).remove(k).contains_key(key) by {
            if entries_view(t).contains_key(key) {
                let j = choose|j: int| 0 <= j < t.len() && t[j].id == key;
                let j2 = if j < i { j } else { j + 1 };
                assert(s[j2].id == key);
                if j < i {
                    assert(s[j].id != s[i].id);
                } else {
                    assert(s[i].id != s[j + 1].id);
                }
            }
            if entries_view(s).remove(k).contains_key(key) {
                let j = choose|j: int| 0 <= j < s.len() && s[j].id == key;
                assert(j != i);
                let j2 = if j < i { j } else { j - 1 };
                assert(t[j2].id == key);
            }
        }
    }
}

impl<E> View for Gradients<E> {
    type V = Map<UniqueId, Seq<E>>;

    closed spec fn view(&self) -> Map<UniqueId, Seq<E>> {
        entries_view(self.entries@)
    }
}

/// The buffer of `n` copies of `zero`.
pub open spec fn zeros<E>(n: nat, zero: E) -> Seq<E> {
    Seq::new(n, |i: int| zero)
}

/// Whether a tensor's declared shape conflicts with the buffer stored for it.
pub open spec fn shape_conflict<E>(m: Map<UniqueId, Seq<E>>, t: PhantomTensor) -> bool {
    m.contains_key(t.id) && m[t.id].len() != t.numel
}

impl<E: Copy> Gradients<E> {
    /// Identities are unique among the entries.
    pub closed spec fn wf(&self) -> bool {
        entries_wf(self.entries@)
    }

    /// The value that fresh buffers are filled with.
    pub closed spec fn zero(&self) -> E {
        self.zero
    }

    /// A store holds finitely many gradients.
    pub proof fn lemma_view_finite(&self)
        ensures
            self@.dom().finite(),
    {
        let ids = self.entries@.map_values(|e: GradientEntry<E>| e.id);
        vstd::seq_lib::seq_to_set_is_finite(ids);
        assert(self@.dom() =~= ids.to_set()) by {
            assert forall|k: UniqueId| self@.dom().contains(k) implies ids.to_set().contains(k) by {
                let i = choose|i: int| 0 <= i < self.entries@.len() && self.entries@[i].id == k;
                assert(ids[i] == k);
            }
            assert forall|k: UniqueId| ids.to_set().contains(k) implies self@.dom().contains(k) by {
                let i = choose|i: int| 0 <= i < ids.len() && ids[i] == k;
                assert(self.entries@[i].id == k);
            }
        }
    }

    /// An empty store whose fresh buffers are filled with `zero`.
    pub fn new(zero: E) -> (r: Self)
        ensures
            r.wf(),
            r@ == Map::<UniqueId, Seq<E>>::empty(),
            r.zero() == zero,
    {
        let r = Gradients { entries: Vec::new(), zero };
        assert(r@ =~= Map::<UniqueId, Seq<E>>::empty());
        r
    }

    fn index_of(&self, id: UniqueId) -> (r: Option<usize>)
        requires
            self.wf(),
        ensures
            match r {
                Some(i) => i < self.entries@.len() && self.entries@[i as int].id == id,
                None => !self@.contains_key(id),
            },
    {
        let mut i: usize = 0;
        while i < self.entries.len()
            invariant
                i <= self.entries@.len(),
                forall|j: int| 0 <= j < i ==> self.entries@[j].id != id,
            decreases self.entries@.len() - i,
        {
            if self.entries[i].id == id {
                return Some(i);
            }
            i = i + 1;
        }
        None
    }

    fn fill(zero: E, n: usize) -> (r: Vec<E>)
        ensures
            r@ == zeros(n as nat, zero),
    {
        let mut v: Vec<E> = Vec::new();
        let mut i: usize = 0;
        while i < n
            invariant
                i <= n,
                v@ == zeros(i as nat, zero),
            decreases n - i,
        {
            v.push(zero);
            i = i + 1;
            assert(v@ =~= zeros(i as nat, zero));
        }
        v
    }

    fn copy_of(v: &Vec<E>) -> (r: Vec<E>)
        ensures
            r@ == v@,
    {
        let mut out: Vec<E> = Vec::new();
        let mut i: usize = 0;
        while i < v.len()
            invariant
                i <= v@.len(),
                out@ == v@.subrange(0, i as int),
            decreases v@.len() - i,
        {
            out.push(v[i]);
            i = i + 1;
            assert(out@ =~= v@.subrange(0, i as int));
        }
        assert(out@ =~= v@);
        out
    }

    /// Returns a reference to the gradient recorded for `t`.
    ///
    /// Fails with [`GradientError::Lookup`] if none was recorded, and with
    /// [`GradientError::Type`] if the recorded buffer has another shape.
    pub fn ref_gradient(&self, t: &PhantomTensor) -> (r: Result<&Vec<E>, GradientError>)
        requires
            self.wf(),
        ensures
            !self@.contains_key(t.id) ==> r == Err::<&Vec<E>, GradientError>(GradientError::Lookup),
            shape_conflict(self@, *t) ==> r == Err::<&Vec<E>, GradientError>(GradientError::Type),
            self@.contains_key(t.id) && !shape_conflict(self@, *t) ==> (r matches Ok(g) && g@
                == self@[t.id]),
    {
        match self.index_of(t.id) {
            Some(i) => {
                proof {
                    lemma_entry(self.entries@, i as int);
                }
                if self.entries[i].data.len() != t.numel {
                    Err(GradientError::Type)
                } else {
                    Ok(&self.entries[i].data)
                }
            },
            None => Err(GradientError::Lookup),
        }
    }

    /// Removes the gradient recorded for `t` and returns it.
    ///
    /// Fails, leaving the store as it was, with [`GradientError::Lookup`] if
    /// none was recorded, and with [`GradientError::Type`] if the recorded
    /// buffer has another shape.
    pub fn remove(&mut self, t: &PhantomTensor) -> (r: Result<Vec<E>, GradientError>)
        requires
            old(self).wf(),
        ensures
            final(self).wf(),
            final(self).zero() == old(self).zero(),
            !old(self)@.contains_key(t.id) ==> r == Err::<Vec<E>, GradientError>(
                GradientError::Lookup,
            ) && final(self)@ == old(self)@,
            shape_conflict(old(self)@, *t) ==> r == Err::<Vec<E>, GradientError>(GradientError::Type)
                && final(self)@ == old(self)@,
            old(self)@.contains_key(t.id) && !shape_conflict(old(self)@, *t) ==> (r matches Ok(g)
                && g@ == old(self)@[t.id] && final(self)@ == old(self)@.remove(t.id)),
    {
        match self.index_of(t.id) {
            Some(i) => {
                proof {
                    lemma_entry(self.entries@, i as int);
                    lemma_remove(self.entries@, i as int);
                }
                if self.entries[i].data.len() != t.numel {
                    return Err(GradientError::Type);
                }
                let entry = self.entries.remove(i);
                Ok(entry.data)
            },
            None => Err(GradientError::Lookup),
        }
    }

    /// Returns a mutable reference to the gradient of `t`, first storing a
    /// buffer of `t.numel` zero values if `t` has none.
    pub fn mut_gradient(&mut self, t: &PhantomTensor) -> (r: Result<&mut [E], GradientError>)
        requires
            old(self).wf(),
        ensures
            final(self).wf(),
            final(self).zero() == old(self).zero(),
            shape_conflict(old(self)@, *t) ==> r == Err::<&mut [E], GradientError>(
                GradientError::Type,
            ) && final(self)@ == old(self)@,
            !shape_conflict(old(self)@, *t) ==> match r {
                Ok(g) => {
                    &&& (*g)@ == (if old(self)@.contains_key(t.id) {
                        old(self)@[t.id]
                    } else {
                        zeros(t.numel as nat, old(self).zero())
                    })
                    &&& final(self)@ == old(self)@.insert(t.id, (*final(g))@)
                },
                Err(_) => false,
            },
    {
        match self.index_of(t.id) {
            Some(i) => {
                proof {
                    lemma_entry(self.entries@, i as int);
                    lemma_update_all(self.entries@, i as int);
                }
                if self.entries[i].data.len() != t.numel {
                    return Err(GradientError::Type);
                }
                Ok(self.entries[i].data.as_mut_slice())
            },
            None => {
                let data = Self::fill(self.zero, t.numel);
                let entry = GradientEntry { id: t.id, data };
                proof {
                    lemma_push(self.entries@, entry);
                }
                self.entries.push(entry);
                let last = self.entries.len() - 1;
                proof {
                    lemma_update_all(self.entries@, last as int);
                }
                Ok(self.entries[last].data.as_mut_slice())
            },
        }
    }

    /// Returns a mutable reference to the gradient of `l`, created as
    /// [`Gradients::mut_gradient`] does, together with a copy of the gradient
    /// recorded for `r`.
    ///
    /// Fails, leaving the store as it was, with
    /// [`GradientError::IdentityCollision`] if `l` and `r` share an identity,
    /// with [`GradientError::Type`] if a recorded buffer of either has another
    /// shape, and with [`GradientError::Lookup`] if none is recorded for `r`.
    pub fn mut_and_ref(&mut self, l: &PhantomTensor, r: &PhantomTensor) -> (res: Result<
        (&mut [E], Vec<E>),
        GradientError,
    >)
        requires
            old(self).wf(),
        ensures
            final(self).wf(),
            final(self).zero() == old(self).zero(),
            res.is_err() ==> final(self)@ == old(self)@,
            l.id == r.id ==> res == Err::<(&mut [E], Vec<E>), GradientError>(
                GradientError::IdentityCollision,
            ),
            l.id != r.id && shape_conflict(old(self)@, *l) ==> res == Err::<
                (&mut [E], Vec<E>),
                GradientError,
            >(GradientError::Type),
            l.id != r.id && !shape_conflict(old(self)@, *l) && !old(self)@.contains_key(r.id) ==> res
                == Err::<(&mut [E], Vec<E>), GradientError>(GradientError::Lookup),
            l.id != r.id && !shape_conflict(old(self)@, *l) && shape_conflict(old(self)@, *r) ==> res
                == Err::<(&mut [E], Vec<E>), GradientError>(GradientError::Type),
            l.id != r.id && !shape_conflict(old(self)@, *l) && old(self)@.contains_key(r.id)
                && !shape_conflict(old(self)@, *r) ==> match res {
                Ok((g, h)) => {
                    &&& (*g)@ == (if old(self)@.contains_key(l.id) {
                        old(self)@[l.id]
                    } else {
                        zeros(l.numel as nat, old(self).zero())
                    })
                    &&& h@ == old(self)@[r.id]
                    &&& final(self)@ == old(self)@.insert(l.id, (*final(g))@)
                },
                Err(_) => false,
            },
    {
        if l.id == r.id {
            return Err(GradientError::IdentityCollision);
        }
        if let Some(i) = self.index_of(l.id) {
            proof {
                lemma_entry(self.entries@, i as int);
            }
            if self.entries[i].data.len() != l.numel {
                return Err(GradientError::Type);
            }
        }
        let source = match self.ref_gradient(r) {
            Ok(h) => Self::copy_of(h),
            Err(e) => {
                return Err(e);
            },
        };
        match self.mut_gradient(l) {
            Ok(g) => Ok((g, source)),
            Err(e) => Err(e),
        }
    }
}

impl<E: Copy + Default> Default for Gradients<E> {
    /// An empty store whose fresh buffers are filled with `E::default()`.
    fn default() -> (r: Self)
        ensures
            r.wf(),
            call_ensures(E::default, (), r.zero()),
            r@ == Map::<UniqueId, Seq<E>>::empty(),
    {
        Gradients::new(E::default())
    }
}

/// A buffer written through [`Gradients::mut_gradient`] is what
/// [`Gradients::ref_gradient`] then reads back: once the store `after` holds
/// `data` for `t`, as `mut_gradient` leaves it, looking `t` up finds `data`
/// and no shape conflict, provided the write kept the buffer's length.
pub proof fn lemma_write_then_read<E>(
    before: Gradients<E>,
    after: Gradients<E>,
    t: PhantomTensor,
    data: Seq<E>,
)
    requires
        after@ == before@.insert(t.id, data),
        data.len() == t.numel,
    ensures
        after@.contains_key(t.id),
        after@[t.id] == data,
        !shape_conflict(after@, t),
{
}

/// Whether `chain` lists the states a store passes through when the recorded
/// operations `ops` run one after the other, the last recorded first: step `k`
/// runs `ops[ops.len() - 1 - k]`, which takes `chain[k]` and returns
/// `chain[k + 1]`.
pub open spec fn runs_in_reverse<E, F: FnOnce(Gradients<E>) -> Gradients<E>>(
    ops: Seq<F>,
    chain: Seq<Gradients<E>>,
) -> bool {
    &&& chain.len() == ops.len() + 1
    &&& forall|k: int|
        0 <= k < ops.len() ==> (#[trigger] ops[ops.len() - 1 - k]).ensures(
            (chain[k],),
            chain[k + 1],
        )
}

/// Records backward operations, each one a closure that takes a
/// [`Gradients`] store and returns it updated, to run later in reverse order
/// of recording.
pub struct GradientTape<E, F> {
    operations: Vec<F>,
    marker: std::marker::PhantomData<E>,
}

impl<E, F> GradientTape<E, F> {
    /// The operations recorded so far, in order of recording.
    pub closed spec fn ops(&self) -> Seq<F> {
        self.operations@
    }

    pub fn new() -> (r: Self)
        ensures
            r.ops() == Seq::<F>::empty(),
    {
        GradientTape { operations: Vec::new(), marker: std::marker::PhantomData }
    }

    /// How many operations are recorded.
    pub fn num_operations(&self) -> (r: usize)
        ensures
            r == self.ops().len(),
    {
        self.operations.len()
    }

    /// Records `operation`, to run before every operation recorded so far.
    pub fn add_backward_op(&mut self, operation: F)
        ensures
            final(self).ops() == old(self).ops().push(operation),
    {
        self.operations.push(operation);
    }

    /// Runs every recorded operation on a new, empty store, the last
    /// recorded first, and returns the store. Taking the tape by value makes
    /// a second execution impossible.
    pub fn execute(self) -> (r: Gradients<E>) where
        E: Copy + Default,
        F: FnOnce(Gradients<E>) -> Gradients<E>,

        requires
            forall|i: int, g: Gradients<E>|
                0 <= i < self.ops().len() && g.wf() ==> #[trigger] self.ops()[i].requires((g,)),
            forall|i: int, g: Gradients<E>, h: Gradients<E>|
                0 <= i < self.ops().len() && g.wf() && #[trigger] self.ops()[i].ensures((g,), h)
                    ==> h.wf(),
        ensures
            r.wf(),
            exists|chain: Seq<Gradients<E>>|
                {
                    &&& runs_in_reverse(self.ops(), chain)
                    &&& chain[0]@ == Map::<UniqueId, Seq<E>>::empty()
                    &&& call_ensures(E::default, (), chain[0].zero())
                    &&& forall|k: int| 0 <= k < chain.len() ==> (#[trigger] chain[k]).wf()
                    &&& chain.last() == r
                },
            self.ops().len() == 0 ==> r@ == Map::<UniqueId, Seq<E>>::empty(),
    {
        let ghost ops = self.ops();
        let mut operations = self.operations;
        let mut gradients: Gradients<E> = Gradients::new(E::default());
        let ghost mut chain: Seq<Gradients<E>> = seq![gradients];
        while operations.len() > 0
            invariant
                operations@.len() <= ops.len(),
                operations@ == ops.subrange(0, operations@.len() as int),
                chain.len() == ops.len() - operations@.len() + 1,
                chain[0]@ == Map::<UniqueId, Seq<E>>::empty(),
                call_ensures(E::default, (), chain[0].zero()),
                forall|k: int| 0 <= k < chain.len() ==> (#[trigger] chain[k]).wf(),
                chain.last() == gradients,
                forall|k: int|
                    0 <= k < chain.len() - 1 ==> (#[trigger] ops[ops.len() - 1 - k]).ensures(
                        (chain[k],),
                        chain[k + 1],
                    ),
                forall|i: int, g: Gradients<E>|
                    0 <= i < ops.len() && g.wf() ==> #[trigger] ops[i].requires((g,)),
                forall|i: int, g: Gradients<E>, h: Gradients<E>|
                    0 <= i < ops.len() && g.wf() && #[trigger] ops[i].ensures((g,), h) ==> h.wf(),
            decreases operations@.len(),
        {
            let ghost before = operations@;
            let ghost n = operations@.len();
            match operations.pop() {
                Some(operation) => {
                    assert(operation == ops[n - 1]) by {
                        assert(before[n - 1] == ops[n - 1]);
                    }
                    let ghost prev = chain;
                    gradients = operation(gradients);
                    proof {
                        chain = chain.push(gradients);
                        assert forall|k: int| 0 <= k < chain.len() - 1 implies (#[trigger] ops[ops.len()
                            - 1 - k]).ensures((chain[k],), chain[k + 1]) by {
                            if k < prev.len() - 1 {
                                assert(chain[k] == prev[k]);
                                assert(chain[k + 1] == prev[k + 1]);
                            } else {
                                assert(ops.len() - 1 - k == n - 1);
                            }
                        }
                    }
                },
                None => {},
            }
        }
        assert(runs_in_reverse(ops, chain));
        gradients
    }
}

impl<E, F> Default for GradientTape<E, F> {
    fn default() -> (r: Self)
        ensures
            r.ops() == Seq::<F>::empty(),
    {
        GradientTape::new()
    }
}

/// Owns a [`GradientTape`]; [`Tape::add_backward_op`] records on it.
pub struct OwnedTape<E, F>(pub Box<GradientTape<E, F>>);

impl<E, F> Default for OwnedTape<E, F> {
    fn default() -> (r: Self)
        ensures
            r.0.ops() == Seq::<F>::empty(),
    {
        OwnedTape(Box::new(GradientTape::new()))
    }
}

/// Holds nothing; [`Tape::add_backward_op`] does nothing.
#[derive(Clone, Copy, Debug, Default)]
pub struct NoneTape;

/// Something that an operation can hand its backward step to. Whether it
/// records is fixed by the implementing type.
pub trait Tape<F>: Sized {
    /// Whether this type owns a [`GradientTape`] and records on it.
    const OWNS_TAPE: bool;

    /// The operations recorded so far, in order of recording.
    spec fn recorded(&self) -> Seq<F>;

    fn add_backward_op(&mut self, operation: F)
        ensures
            final(self).recorded() == (if Self::OWNS_TAPE {
                old(self).recorded().push(operation)
            } else {
                old(self).recorded()
            }),
    ;
}

impl<E, F> Tape<F> for OwnedTape<E, F> {
    const OWNS_TAPE: bool = true;

    open spec fn recorded(&self) -> Seq<F> {
        self.0.ops()
    }

    fn add_backward_op(&mut self, operation: F) {
        self.0.add_backward_op(operation);
    }
}

impl<F> Tape<F> for NoneTape {
    const OWNS_TAPE: bool = false;

    open spec fn recorded(&self) -> Seq<F> {
        Seq::empty()
    }

    fn add_backward_op(&mut self, _operation: F) {
    }
}

/// An [`OwnedTape`] records every operation handed to it; a [`NoneTape`]
/// records none.
pub proof fn lemma_tape_modes<E, F>()
    ensures
        <OwnedTape<E, F> as Tape<F>>::OWNS_TAPE,
        !<NoneTape as Tape<F>>::OWNS_TAPE,
{
}

/// Hands out the gradient to apply to a parameter, typically an optimizer
/// drawing on a completed [`Gradients`] store. It may update state of its own
/// (a momentum, say) keyed by the parameter's identity, and must tolerate a
/// parameter that received no gradient.
pub trait GradientProvider<E> {
    fn gradient(&mut self, p: &PhantomTensor) -> Vec<E>;
}

/// Something whose parameters can be updated in place from a
/// [`GradientProvider`]; a composite delegates to its parts.
pub trait CanUpdateWithGradients<E> {
    fn update<G: GradientProvider<E>>(&mut self, grads: &mut G);
}

} // verus!
