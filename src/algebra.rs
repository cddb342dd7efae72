use vstd::prelude::*;
use vstd::pervasive::strictly_cloned;

verus! {

/// A monoid: an identity element and an associative binary operation.
///
/// The laws are proof obligations of every implementation, so the trees
/// built on top of a `Monoid` may rely on them.
pub trait Monoid: Sized + Clone {
    /// The identity element, as a mathematical value.
    spec fn identity() -> Self;

    /// The binary operation, as a mathematical function.
    spec fn combine(a: Self, b: Self) -> Self;

    /// `op(id(), x) == x`
    proof fn lemma_left_identity(x: Self)
        ensures
            Self::combine(Self::identity(), x) == x,
    ;

    /// `op(x, id()) == x`
    proof fn lemma_right_identity(x: Self)
        ensures
            Self::combine(x, Self::identity()) == x,
    ;

    /// `op(op(x, y), z) == op(x, op(y, z))`
    proof fn lemma_associative(x: Self, y: Self, z: Self)
        ensures
            Self::combine(Self::combine(x, y), z) == Self::combine(x, Self::combine(y, z)),
    ;

    /// A clone is equal to the value it was cloned from.
    proof fn lemma_clone_equal(x: Self, y: Self)
        requires
            strictly_cloned(x, y),
        ensures
            x == y,
    ;

    /// Returns the identity element of the monoid.
    fn id() -> (r: Self)
        ensures
            r == Self::identity(),
    ;

    /// Performs the binary operation of the monoid.
    fn op(&self, other: &Self) -> (r: Self)
        ensures
            r == Self::combine(*self, *other),
    ;
}

/// An action of the monoid `Self` on the monoid `S`: a monoid homomorphism
/// from `Self` into the endomorphisms of `S`.
///
/// `act(op(f, g), s) == act(f, act(g, s))`: `g` is applied first.
pub trait Action<S: Monoid>: Monoid {
    /// The action, as a mathematical function.
    spec fn action(f: Self, s: S) -> S;

    /// `act(id(), s) == s`
    proof fn lemma_identity_action(s: S)
        ensures
            Self::action(Self::identity(), s) == s,
    ;

    /// `act(op(f, g), s) == act(f, act(g, s))`
    proof fn lemma_compose_action(f: Self, g: Self, s: S)
        ensures
            Self::action(Self::combine(f, g), s) == Self::action(f, Self::action(g, s)),
    ;

    /// `act(f, op(a, b)) == op(act(f, a), act(f, b))`
    proof fn lemma_action_distributes(f: Self, a: S, b: S)
        ensures
            Self::action(f, S::combine(a, b)) == S::combine(Self::action(f, a), Self::action(f, b)),
    ;

    /// Applies the action to an element of `S`.
    fn act(&self, s: &S) -> (r: S)
        ensures
            r == Self::action(*self, *s),
    ;
}

/// `op(s[0], s[1], ..., s[len - 1])`, or the identity for an empty sequence.
pub open spec fn fold<S: Monoid>(s: Seq<S>) -> S
    decreases s.len(),
{
    if s.len() == 0 {
        S::identity()
    } else {
        S::combine(fold(s.drop_last()), s.last())
    }
}

/// Every element of `s` with the action `f` applied to it.
pub open spec fn map_act<S: Monoid, F: Action<S>>(f: F, s: Seq<S>) -> Seq<S> {
    Seq::new(s.len(), |i: int| F::action(f, s[i]))
}

/// Folding nothing gives the identity: every range fold over an empty range, and
/// the fold of a tree with no elements, is `id()`.
pub proof fn lemma_fold_empty<S: Monoid>()
    ensures
        fold(Seq::<S>::empty()) == S::identity(),
{
}

/// Clones a value; the clone is equal to it.
pub fn clone_value<S: Monoid>(x: &S) -> (r: S)
    ensures
        r == *x,
{
    let r = x.clone();
    proof {
        S::lemma_clone_equal(*x, r);
    }
    r
}

pub proof fn lemma_fold_single<S: Monoid>(x: S)
    ensures
        fold(seq![x]) == x,
{
    assert(seq![x].drop_last() =~= Seq::<S>::empty());
    assert(fold(Seq::<S>::empty()) == S::identity());
    S::lemma_left_identity(x);
}

/// Folding a concatenation combines the folds of the parts.
pub proof fn lemma_fold_concat<S: Monoid>(a: Seq<S>, b: Seq<S>)
    ensures
        fold(a + b) == S::combine(fold(a), fold(b)),
    decreases b.len(),
{
    if b.len() == 0 {
        assert(a + b =~= a);
        S::lemma_right_identity(fold(a));
    } else {
        let b1 = b.drop_last();
        assert((a + b).drop_last() =~= a + b1);
        assert((a + b).last() == b.last());
        lemma_fold_concat(a, b1);
        S::lemma_associative(fold(a), fold(b1), b.last());
    }
}

/// Folding one more element on the right.
pub proof fn lemma_fold_push<S: Monoid>(s: Seq<S>, x: S)
    ensures
        fold(s.push(x)) == S::combine(fold(s), x),
{
    assert(s.push(x).drop_last() =~= s);
}

/// Folding one more element on the left.
pub proof fn lemma_fold_prepend<S: Monoid>(x: S, s: Seq<S>)
    ensures
        fold(seq![x] + s) == S::combine(x, fold(s)),
{
    lemma_fold_concat(seq![x], s);
    lemma_fold_single(x);
}

/// A fold of identities is the identity.
pub proof fn lemma_fold_identities<S: Monoid>(s: Seq<S>)
    requires
        forall|i: int| 0 <= i < s.len() ==> s[i] == S::identity(),
    ensures
        fold(s) == S::identity(),
    decreases s.len(),
{
    if s.len() > 0 {
        lemma_fold_identities(s.drop_last());
        S::lemma_left_identity(S::identity());
    }
}

/// An action applied to every element of a non-empty sequence acts on its fold.
pub proof fn lemma_fold_map_act<S: Monoid, F: Action<S>>(f: F, s: Seq<S>)
    requires
        s.len() > 0,
    ensures
        fold(map_act(f, s)) == F::action(f, fold(s)),
    decreases s.len(),
{
    let m = map_act(f, s);
    if s.len() == 1 {
        assert(s =~= seq![s[0]]);
        assert(m =~= seq![F::action(f, s[0])]);
        lemma_fold_single(s[0]);
        lemma_fold_single(F::action(f, s[0]));
    } else {
        let s1 = s.drop_last();
        assert(m.drop_last() =~= map_act(f, s1));
        lemma_fold_map_act(f, s1);
        F::lemma_action_distributes(f, fold(s1), s.last());
    }
}

/// Acting with `g` and then with `f` acts with `op(f, g)`.
pub proof fn lemma_map_act_compose<S: Monoid, F: Action<S>>(f: F, g: F, s: Seq<S>)
    ensures
        map_act(f, map_act(g, s)) == map_act(F::combine(f, g), s),
{
    assert forall|i: int| 0 <= i < s.len() implies #[trigger] map_act(f, map_act(g, s))[i]
        == map_act(F::combine(f, g), s)[i] by {
        F::lemma_compose_action(f, g, s[i]);
    }
    assert(map_act(f, map_act(g, s)) =~= map_act(F::combine(f, g), s));
}

/// Acting with the identity changes nothing.
pub proof fn lemma_map_act_identity<S: Monoid, F: Action<S>>(s: Seq<S>)
    ensures
        map_act(F::identity(), s) == s,
{
    assert forall|i: int| 0 <= i < s.len() implies #[trigger] map_act(F::identity(), s)[i]
        == s[i] by {
        F::lemma_identity_action(s[i]);
    }
    assert(map_act(F::identity(), s) =~= s);
}

} // verus!
