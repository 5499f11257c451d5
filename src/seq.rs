//! Containers for a single read or a read pair.
use vstd::prelude::*;

verus! {

/// The file format of a sequence.
#[derive(Debug, Clone, Copy, PartialEq, Eq)]
pub enum SeqFormat {
    Fasta,
    Fastq,
}

/// Where a sequence came from.
#[derive(Debug, Clone, PartialEq, Eq)]
pub struct SeqHeader {
    pub id: String,
    pub file_index: usize,
    pub reads_index: usize,
    pub format: SeqFormat,
}

/// One value, or two for a read pair.
#[derive(Debug, Clone)]
pub enum OptionPair<T> {
    Single(T),
    Pair(T, T),
}

impl<T> OptionPair<T> {
    /// Applies `f` to each value, stopping at the first error.
    pub fn map<U, E, F>(self, mut f: F) -> (r: Result<OptionPair<U>, E>) where
        F: FnMut(T) -> Result<U, E>,

        requires
            match self {
                OptionPair::Single(t) => f.requires((t,)),
                OptionPair::Pair(t1, t2) => f.requires((t1,)) && f.requires((t2,)),
            },
        ensures
            match self {
                OptionPair::Single(t) => match r {
                    Ok(OptionPair::Single(u)) => f.ensures((t,), Ok::<U, E>(u)),
                    Err(e) => f.ensures((t,), Err::<U, E>(e)),
                    _ => false,
                },
                OptionPair::Pair(t1, t2) => match r {
                    Ok(OptionPair::Pair(u1, u2)) => f.ensures((t1,), Ok::<U, E>(u1)) && f.ensures(
                        (t2,),
                        Ok::<U, E>(u2),
                    ),
                    Err(e) => f.ensures((t1,), Err::<U, E>(e)) || (exists|u1: U|
                        f.ensures((t1,), Ok::<U, E>(u1))) && f.ensures((t2,), Err::<U, E>(e)),
                    _ => false,
                },
            },
    {
        match self {
            OptionPair::Single(t) => match f(t) {
                Ok(u) => Ok(OptionPair::Single(u)),
                Err(e) => Err(e),
            },
            OptionPair::Pair(t1, t2) => {
                let u1 = match f(t1) {
                    Ok(u) => u,
                    Err(e) => {
                        return Err(e);
                    },
                };
                let u2 = match f(t2) {
                    Ok(u) => u,
                    Err(e) => {
                        return Err(e);
                    },
                };
                Ok(OptionPair::Pair(u1, u2))
            },
        }
    }
}

impl<T: Clone> OptionPair<T> {
    /// A single value from a one-element slice, a pair from a two-element
    /// slice.
    pub fn from_slice(slice: &[T]) -> (r: OptionPair<T>)
        requires
            slice@.len() == 1 || slice@.len() == 2,
        ensures
            match r {
                OptionPair::Single(a) => slice@.len() == 1 && cloned(slice@[0], a),
                OptionPair::Pair(a, b) => slice@.len() == 2 && cloned(slice@[0], a) && cloned(
                    slice@[1],
                    b,
                ),
            },
    {
        if slice.len() == 2 {
            OptionPair::Pair(slice[0].clone(), slice[1].clone())
        } else {
            OptionPair::Single(slice[0].clone())
        }
    }
}

impl<T> From<(T, Option<T>)> for OptionPair<T> {
    fn from(tuple: (T, Option<T>)) -> (r: Self) {
        match tuple {
            (a, Some(b)) => OptionPair::Pair(a, b),
            (a, None) => OptionPair::Single(a),
        }
    }
}

impl<T> vstd::std_specs::convert::FromSpecImpl<(T, Option<T>)> for OptionPair<T> {
    open spec fn obeys_from_spec() -> bool {
        true
    }

    open spec fn from_spec(v: (T, Option<T>)) -> Self {
        match v.1 {
            Some(b) => OptionPair::Pair(v.0, b),
            None => OptionPair::Single(v.0),
        }
    }
}

/// A property shared by one sequence or by both reads of a pair.
#[derive(Debug, Clone, Copy, PartialEq, Eq)]
pub enum BaseType<S, T> {
    Single(S, T),
    Pair(S, T, T),
}

impl<S, T> BaseType<S, T> {
    /// The shared property.
    pub open spec fn prop(self) -> S {
        match self {
            BaseType::Single(s, _) => s,
            BaseType::Pair(s, _, _) => s,
        }
    }

    /// Applies `func` to each sequence with the shared property.
    pub fn apply<'a, U, F>(&'a self, mut func: F) -> (r: BaseType<(), U>) where
        F: FnMut(&'a S, &'a T) -> U,

        requires
            match *self {
                BaseType::Single(p, t) => func.requires((&p, &t)),
                BaseType::Pair(p, t1, t2) => func.requires((&p, &t1)) && func.requires((&p, &t2)),
            },
        ensures
            match (*self, r) {
                (BaseType::Single(p, t), BaseType::Single(_, u)) => func.ensures((&p, &t), u),
                (BaseType::Pair(p, t1, t2), BaseType::Pair(_, u1, u2)) => func.ensures((&p, &t1), u1)
                    && func.ensures((&p, &t2), u2),
                _ => false,
            },
    {
        match self {
            BaseType::Single(prop, seq) => BaseType::Single((), func(prop, seq)),
            BaseType::Pair(prop, seq1, seq2) => {
                let a = func(prop, seq1);
                let b = func(prop, seq2);
                BaseType::Pair((), a, b)
            },
        }
    }

    /// The shared property.
    pub fn get_s(&self) -> (r: &S)
        ensures
            *r == self.prop(),
    {
        match self {
            BaseType::Single(prop, _) => prop,
            BaseType::Pair(prop, _, _) => prop,
        }
    }

    /// Applies `func` to each sequence, which returns a property and a value;
    /// the result keeps the first call's property.
    pub fn transform<'a, U, F, V>(&mut self, mut func: F) -> (r: BaseType<V, U>) where
        F: for <'b>FnMut(&S, &'b mut T) -> (V, U),

        requires
            match *old(self) {
                BaseType::Single(p, t) => forall|m: &mut T|
                    mut_ref_current(m) == t ==> #[trigger] func.requires((&p, m)),
                BaseType::Pair(p, t1, t2) => forall|m: &mut T|
                    mut_ref_current(m) == t1 || mut_ref_current(m) == t2 ==> #[trigger] func.requires(
                        (&p, m),
                    ),
            },
        ensures
            (*old(self) is Single) <==> (r is Single),
            (*old(self) is Single) <==> (*final(self) is Single),
            final(self).prop() == old(self).prop(),
            *old(self) is Single ==> exists|m: &mut T|
                mut_ref_current(m) == (*old(self))->Single_1 && mut_ref_future(m) == (
                *final(self))->Single_1 && #[trigger] func.ensures(
                    (&(*old(self))->Single_0, m),
                    (r->Single_0, r->Single_1),
                ),
            *old(self) is Pair ==> exists|m: &mut T|
                mut_ref_current(m) == (*old(self))->Pair_1 && mut_ref_future(m) == (
                *final(self))->Pair_1 && #[trigger] func.ensures(
                    (&(*old(self))->Pair_0, m),
                    (r->Pair_0, r->Pair_1),
                ),
            *old(self) is Pair ==> exists|v2: V, m: &mut T|
                mut_ref_current(m) == (*old(self))->Pair_2 && mut_ref_future(m) == (
                *final(self))->Pair_2 && #[trigger] func.ensures(
                    (&(*old(self))->Pair_0, m),
                    (v2, r->Pair_2),
                ),
    {
        match self {
            BaseType::Single(ref prop, ref mut seq) => {
                let ghost t0 = *seq;
                let res1 = func(prop, seq);
                let ghost t1 = *seq;
                let r = BaseType::Single(res1.0, res1.1);
                proof {
                    let m0 = choose|m: &mut T|
                        mut_ref_current(m) == t0 && mut_ref_future(m) == t1 && func.ensures(
                            (prop, m),
                            res1,
                        );
                    assert(res1 == (r->Single_0, r->Single_1));
                    assert(func.ensures((&(*old(self))->Single_0, m0), (r->Single_0, r->Single_1)));
                }
                r
            },
            BaseType::Pair(ref prop, ref mut seq1, ref mut seq2) => {
                let ghost a0 = *seq1;
                let res1 = func(prop, seq1);
                let ghost a1 = *seq1;
                let ghost b0 = *seq2;
                let res2 = func(prop, seq2);
                let ghost b1 = *seq2;
                let r = BaseType::Pair(res1.0, res1.1, res2.1);
                proof {
                    let m1 = choose|m: &mut T|
                        mut_ref_current(m) == a0 && mut_ref_future(m) == a1 && func.ensures(
                            (prop, m),
                            res1,
                        );
                    assert(res1 == (r->Pair_0, r->Pair_1));
                    assert(func.ensures((&(*old(self))->Pair_0, m1), (r->Pair_0, r->Pair_1)));
                    let m2 = choose|m: &mut T|
                        mut_ref_current(m) == b0 && mut_ref_future(m) == b1 && func.ensures(
                            (prop, m),
                            res2,
                        );
                    assert(res2 == (res2.0, r->Pair_2));
                    assert(func.ensures((&(*old(self))->Pair_0, m2), (res2.0, r->Pair_2)));
                }
                r
            },
        }
    }

    /// Applies `func` to each sequence, threading the accumulator `init`.
    pub fn fold<U, F, V>(&mut self, init: &mut V, mut func: F) -> (r: BaseType<(), U>) where
        F: FnMut(&mut V, &S, &mut T) -> U,

        requires
            match *old(self) {
                BaseType::Single(p, t) => forall|mv: &mut V, m: &mut T|
                    mut_ref_current(m) == t ==> #[trigger] func.requires((mv, &p, m)),
                BaseType::Pair(p, t1, t2) => forall|mv: &mut V, m: &mut T|
                    mut_ref_current(m) == t1 || mut_ref_current(m) == t2 ==> #[trigger] func.requires(
                        (mv, &p, m),
                    ),
            },
        ensures
            (*old(self) is Single) <==> (r is Single),
            (*old(self) is Single) <==> (*final(self) is Single),
            final(self).prop() == old(self).prop(),
            *old(self) is Single ==> exists|mv: &mut V, m: &mut T|
                mut_ref_current(mv) == *old(init) && mut_ref_future(mv) == *final(init)
                    && mut_ref_current(m) == (*old(self))->Single_1 && mut_ref_future(m) == (
                *final(self))->Single_1 && #[trigger] func.ensures(
                    (mv, &(*old(self))->Single_0, m),
                    r->Single_1,
                ),
            *old(self) is Pair ==> exists|mv1: &mut V, m1: &mut T, mv2: &mut V, m2: &mut T|
                #![trigger func.ensures((mv1, &(*old(self))->Pair_0, m1), r->Pair_1), func.ensures((mv2, &(*old(self))->Pair_0, m2), r->Pair_2)]
                mut_ref_current(mv1) == *old(init) && mut_ref_future(mv1) == mut_ref_current(mv2)
                    && mut_ref_future(mv2) == *final(init) && mut_ref_current(m1) == (
                *old(self))->Pair_1 && mut_ref_future(m1) == (*final(self))->Pair_1
                    && mut_ref_current(m2) == (*old(self))->Pair_2 && mut_ref_future(m2) == (
                *final(self))->Pair_2 && func.ensures((mv1, &(*old(self))->Pair_0, m1), r->Pair_1)
                    && func.ensures((mv2, &(*old(self))->Pair_0, m2), r->Pair_2),
    {
        match self {
            BaseType::Single(ref prop, ref mut seq) => {
                let ghost i0 = *init;
                let ghost t0 = *seq;
                let a = func(init, prop, seq);
                let ghost i1 = *init;
                let ghost t1 = *seq;
                let r = BaseType::Single((), a);
                proof {
                    assert(exists|mv: &mut V, m: &mut T|
                        mut_ref_current(mv) == i0 && mut_ref_future(mv) == i1 && mut_ref_current(m)
                            == t0 && mut_ref_future(m) == t1 && #[trigger] func.ensures(
                            (mv, prop, m),
                            a,
                        ));
                    assert(*prop == (*old(self))->Single_0);
                    assert(r->Single_1 == a);
                    assert(exists|mv: &mut V, m: &mut T|
                        mut_ref_current(mv) == i0 && mut_ref_future(mv) == i1 && mut_ref_current(m)
                            == t0 && mut_ref_future(m) == t1 && #[trigger] func.ensures(
                            (mv, &(*old(self))->Single_0, m),
                            r->Single_1,
                        ));
                }
                r
            },
            BaseType::Pair(ref prop, ref mut seq1, ref mut seq2) => {
                let ghost i0 = *init;
                let ghost a0 = *seq1;
                let a = func(init, prop, seq1);
                let ghost i1 = *init;
                let ghost a1 = *seq1;
                let ghost b0 = *seq2;
                let b = func(init, prop, seq2);
                let ghost i2 = *init;
                let ghost b1 = *seq2;
                let r = BaseType::Pair((), a, b);
                proof {
                    assert(exists|mv: &mut V, m: &mut T|
                        mut_ref_current(mv) == i0 && mut_ref_future(mv) == i1 && mut_ref_current(m)
                            == a0 && mut_ref_future(m) == a1 && #[trigger] func.ensures(
                            (mv, prop, m),
                            a,
                        ));
                    assert(exists|mv: &mut V, m: &mut T|
                        mut_ref_current(mv) == i1 && mut_ref_future(mv) == i2 && mut_ref_current(m)
                            == b0 && mut_ref_future(m) == b1 && #[trigger] func.ensures(
                            (mv, prop, m),
                            b,
                        ));
                    assert(*prop == (*old(self))->Pair_0);
                    assert(r->Pair_1 == a && r->Pair_2 == b);
                    assert(exists|mv: &mut V, m: &mut T|
                        mut_ref_current(mv) == i0 && mut_ref_future(mv) == i1 && mut_ref_current(m)
                            == a0 && mut_ref_future(m) == a1 && #[trigger] func.ensures(
                            (mv, &(*old(self))->Pair_0, m),
                            r->Pair_1,
                        ));
                    assert(exists|mv: &mut V, m: &mut T|
                        mut_ref_current(mv) == i1 && mut_ref_future(mv) == i2 && mut_ref_current(m)
                            == b0 && mut_ref_future(m) == b1 && #[trigger] func.ensures(
                            (mv, &(*old(self))->Pair_0, m),
                            r->Pair_2,
                        ));
                }
                r
            },
        }
    }

    /// Lets `func` change each sequence in place.
    pub fn modify<F>(&mut self, mut func: F) where F: FnMut(&S, &mut T)
        requires
            match *old(self) {
                BaseType::Single(p, t) => forall|m: &mut T|
                    mut_ref_current(m) == t ==> #[trigger] func.requires((&p, m)),
                BaseType::Pair(p, t1, t2) => forall|m: &mut T|
                    mut_ref_current(m) == t1 || mut_ref_current(m) == t2 ==> #[trigger] func.requires(
                        (&p, m),
                    ),
            },
        ensures
            match (*old(self), *final(self)) {
                (BaseType::Single(p, t), BaseType::Single(q, t2)) => q == p && exists|m: &mut T|
                    mut_ref_current(m) == t && mut_ref_future(m) == t2 && #[trigger] func.ensures(
                        (&p, m),
                        (),
                    ),
                (BaseType::Pair(p, t1, t2), BaseType::Pair(q, u1, u2)) => q == p && (exists|
                    m: &mut T,
                |
                    mut_ref_current(m) == t1 && mut_ref_future(m) == u1 && #[trigger] func.ensures(
                        (&p, m),
                        (),
                    )) && (exists|m: &mut T|
                    mut_ref_current(m) == t2 && mut_ref_future(m) == u2 && #[trigger] func.ensures(
                        (&p, m),
                        (),
                    )),
                _ => false,
            },
    {
        match self {
            BaseType::Single(prop, seq) => func(prop, seq),
            BaseType::Pair(prop, seq1, seq2) => {
                func(prop, seq1);
                func(prop, seq2);
            },
        }
    }

    /// Applies `func` to each sequence, mutably, with the shared property.
    pub fn apply_mut<U, F>(&mut self, mut func: F) -> (r: BaseType<(), U>) where
        F: FnMut(&S, &mut T) -> U,

        requires
            match *old(self) {
                BaseType::Single(p, t) => forall|m: &mut T|
                    mut_ref_current(m) == t ==> #[trigger] func.requires((&p, m)),
                BaseType::Pair(p, t1, t2) => forall|m: &mut T|
                    mut_ref_current(m) == t1 || mut_ref_current(m) == t2 ==> #[trigger] func.requires(
                        (&p, m),
                    ),
            },
        ensures
            (*old(self) is Single) <==> (r is Single),
            (*old(self) is Single) <==> (*final(self) is Single),
            final(self).prop() == old(self).prop(),
            *old(self) is Single ==> exists|m: &mut T|
                mut_ref_current(m) == (*old(self))->Single_1 && mut_ref_future(m) == (
                *final(self))->Single_1 && #[trigger] func.ensures(
                    (&(*old(self))->Single_0, m),
                    r->Single_1,
                ),
            *old(self) is Pair ==> exists|m: &mut T|
                mut_ref_current(m) == (*old(self))->Pair_1 && mut_ref_future(m) == (
                *final(self))->Pair_1 && #[trigger] func.ensures(
                    (&(*old(self))->Pair_0, m),
                    r->Pair_1,
                ),
            *old(self) is Pair ==> exists|m: &mut T|
                mut_ref_current(m) == (*old(self))->Pair_2 && mut_ref_future(m) == (
                *final(self))->Pair_2 && #[trigger] func.ensures(
                    (&(*old(self))->Pair_0, m),
                    r->Pair_2,
                ),
    {
        match self {
            BaseType::Single(ref prop, ref mut seq) => {
                let ghost t0 = *seq;
                let a = func(prop, seq);
                let ghost t1 = *seq;
                let r = BaseType::Single((), a);
                proof {
                    let m0 = choose|m: &mut T|
                        mut_ref_current(m) == t0 && mut_ref_future(m) == t1 && func.ensures(
                            (prop, m),
                            a,
                        );
                    assert(func.ensures((&(*old(self))->Single_0, m0), r->Single_1));
                }
                r
            },
            BaseType::Pair(ref prop, ref mut seq1, ref mut seq2) => {
                let ghost a0 = *seq1;
                let a = func(prop, seq1);
                let ghost a1 = *seq1;
                let ghost b0 = *seq2;
                let b = func(prop, seq2);
                let ghost b1 = *seq2;
                let r = BaseType::Pair((), a, b);
                proof {
                    let m1 = choose|m: &mut T|
                        mut_ref_current(m) == a0 && mut_ref_future(m) == a1 && func.ensures(
                            (prop, m),
                            a,
                        );
                    assert(func.ensures((&(*old(self))->Pair_0, m1), r->Pair_1));
                    let m2 = choose|m: &mut T|
                        mut_ref_current(m) == b0 && mut_ref_future(m) == b1 && func.ensures(
                            (prop, m),
                            b,
                        );
                    assert(func.ensures((&(*old(self))->Pair_0, m2), r->Pair_2));
                }
                r
            },
        }
    }
}

impl<S, U> BaseType<S, Vec<U>> where S: Copy {
    /// The length of each sequence.
    pub fn len(&self) -> (r: BaseType<(), usize>)
        ensures
            match (*self, r) {
                (BaseType::Single(_, t), BaseType::Single(_, n)) => n == t@.len(),
                (BaseType::Pair(_, t1, t2), BaseType::Pair(_, n1, n2)) => n1 == t1@.len() && n2
                    == t2@.len(),
                _ => false,
            },
    {
        self.apply(|_s: &S, seq: &Vec<U>| -> (n: usize)
            ensures
                n == seq@.len(),
            { seq.len() })
    }
}

} // verus!
