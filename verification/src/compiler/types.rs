//! The types of expressions: a scale paired with a magma.

use vstd::prelude::*;

verus! {

/// The algebraic class of a value: `Boolean` values are known to be zero or
/// one, `Integer` values are any element of the field.
#[derive(Debug, Clone, Copy, PartialEq, Eq, Structural)]
pub enum Magma {
    Boolean,
    Integer,
}

/// The type of an expression.
#[derive(Debug, Clone, Copy, PartialEq, Eq, Structural)]
pub enum Type {
    Void,
    Scalar(Magma),
    Column(Magma),
    List(Magma),
}

impl Magma {
    /// The least magma that holds both: `Integer` as soon as one of them is.
    pub open spec fn join(self, other: Magma) -> Magma {
        if self == Magma::Integer || other == Magma::Integer {
            Magma::Integer
        } else {
            Magma::Boolean
        }
    }

    /// The least magma that holds both.
    pub fn max(self, other: Magma) -> (r: Magma)
        ensures
            r == self.join(other),
    {
        match (self, other) {
            (Magma::Boolean, Magma::Boolean) => Magma::Boolean,
            _ => Magma::Integer,
        }
    }
}

impl Type {
    /// Where the scale of a type stands in the order of scales: scalars
    /// below columns, columns below lists, and `Void` above them all.
    pub open spec fn rank(self) -> nat {
        match self {
            Type::Scalar(_) => 0,
            Type::Column(_) => 1,
            Type::List(_) => 2,
            Type::Void => 3,
        }
    }

    /// The magma of a type; `Void`, which holds no value, counts as
    /// `Boolean`.
    pub open spec fn magma_spec(self) -> Magma {
        match self {
            Type::Scalar(m) => m,
            Type::Column(m) => m,
            Type::List(m) => m,
            Type::Void => Magma::Boolean,
        }
    }

    /// The type of the scale of `self` and of magma `m`.
    pub open spec fn with_magma(self, m: Magma) -> Type {
        match self {
            Type::Scalar(_) => Type::Scalar(m),
            Type::Column(_) => Type::Column(m),
            Type::List(_) => Type::List(m),
            Type::Void => Type::Void,
        }
    }

    /// The order of the lattice: scale below scale and magma below magma.
    pub open spec fn le(self, other: Type) -> bool {
        other == Type::Void || (self.rank() <= other.rank() && self.magma_spec().join(
            other.magma_spec(),
        ) == other.magma_spec())
    }

    /// The join of the lattice: the greater scale with the greater magma.
    pub open spec fn join(self, other: Type) -> Type {
        if self.rank() >= other.rank() {
            self.with_magma(self.magma_spec().join(other.magma_spec()))
        } else {
            other.with_magma(self.magma_spec().join(other.magma_spec()))
        }
    }

    /// The least type.
    pub open spec fn infimum_spec() -> Type {
        Type::Scalar(Magma::Boolean)
    }

    /// The join of all the types of `ts`.
    pub open spec fn join_all(ts: Seq<Type>) -> Type
        decreases ts.len(),
    {
        if ts.len() == 0 {
            Type::infimum_spec()
        } else {
            Type::join_all(ts.drop_last()).join(ts.last())
        }
    }

    /// Whether a type holds one value per row or one value in all.
    pub open spec fn is_value_spec(self) -> bool {
        self is Scalar || self is Column
    }

    /// Whether a type is known to hold only zero and one.
    pub open spec fn is_bool_spec(self) -> bool {
        self != Type::Void && self.magma_spec() == Magma::Boolean
    }

    /// The scalar type of the same magma; `Void` stays `Void`.
    pub open spec fn as_scalar_spec(self) -> Type {
        match self {
            Type::Void => Type::Void,
            Type::Scalar(m) => Type::Scalar(m),
            Type::Column(m) => Type::Scalar(m),
            Type::List(m) => Type::Scalar(m),
        }
    }

    /// The join is the least upper bound of the order, and the infimum is
    /// the least type.
    pub proof fn lemma_join_is_lub(a: Type, b: Type, c: Type)
        ensures
            a.le(a.join(b)),
            b.le(a.join(b)),
            a.le(c) && b.le(c) ==> a.join(b).le(c),
            Type::infimum_spec().le(a),
            a.join(b) == b.join(a),
            a.join(a) == a,
            a.join(b).join(c) == a.join(b.join(c)),
            Type::infimum_spec().join(a) == a,
    {
    }

    /// The magma of a join of types that hold values is the join of their
    /// magmas.
    pub proof fn lemma_join_all_magma(ts: Seq<Type>)
        requires
            forall|i: int| 0 <= i < ts.len() ==> (#[trigger] ts[i]).is_value_spec(),
        ensures
            Type::join_all(ts).is_value_spec(),
            Type::join_all(ts).magma_spec() == Magma::Boolean <==> forall|i: int|
                0 <= i < ts.len() ==> (#[trigger] ts[i]).magma_spec() == Magma::Boolean,
        decreases ts.len(),
    {
        if ts.len() > 0 {
            let init = ts.drop_last();
            assert forall|i: int| 0 <= i < init.len() implies (#[trigger] init[i]).is_value_spec() by {
                assert(init[i] == ts[i]);
            }
            Type::lemma_join_all_magma(init);
            if Type::join_all(ts).magma_spec() == Magma::Boolean {
                assert forall|i: int| 0 <= i < ts.len() implies (#[trigger] ts[i]).magma_spec()
                    == Magma::Boolean by {
                    if i < init.len() {
                        assert(init[i] == ts[i]);
                    }
                }
            } else {
                if forall|i: int| 0 <= i < ts.len() ==> (#[trigger] ts[i]).magma_spec() == Magma::Boolean {
                    assert forall|i: int| 0 <= i < init.len() implies (#[trigger] init[i]).magma_spec()
                        == Magma::Boolean by {
                        assert(init[i] == ts[i]);
                    }
                    assert(ts[ts.len() - 1].magma_spec() == Magma::Boolean);
                }
            }
        }
    }

    /// The least type.
    pub fn infimum() -> (r: Type)
        ensures
            r == Type::infimum_spec(),
    {
        Type::Scalar(Magma::Boolean)
    }

    /// The magma of the type.
    pub fn magma(&self) -> (r: Magma)
        ensures
            r == self.magma_spec(),
    {
        match self {
            Type::Scalar(m) => *m,
            Type::Column(m) => *m,
            Type::List(m) => *m,
            Type::Void => Magma::Boolean,
        }
    }

    /// The type of the same scale and of magma `m`.
    pub fn same_scale(&self, m: Magma) -> (r: Type)
        ensures
            r == self.with_magma(m),
    {
        match self {
            Type::Scalar(_) => Type::Scalar(m),
            Type::Column(_) => Type::Column(m),
            Type::List(_) => Type::List(m),
            Type::Void => Type::Void,
        }
    }

    /// The scalar type of the same magma.
    pub fn as_scalar(&self) -> (r: Type)
        ensures
            r == self.as_scalar_spec(),
    {
        match self {
            Type::Void => Type::Void,
            Type::Scalar(m) => Type::Scalar(*m),
            Type::Column(m) => Type::Scalar(*m),
            Type::List(m) => Type::Scalar(*m),
        }
    }

    /// The join of two types.
    pub fn max(&self, other: &Type) -> (r: Type)
        ensures
            r == self.join(*other),
    {
        let m = self.magma().max(other.magma());
        match (self, other) {
            (Type::Void, _) => Type::Void,
            (_, Type::Void) => Type::Void,
            (Type::List(_), _) => Type::List(m),
            (_, Type::List(_)) => Type::List(m),
            (Type::Column(_), _) => Type::Column(m),
            (_, Type::Column(_)) => Type::Column(m),
            (Type::Scalar(_), Type::Scalar(_)) => Type::Scalar(m),
        }
    }

    /// The join of all the types of `ts`.
    pub fn max_all(ts: &[Type]) -> (r: Type)
        ensures
            r == Type::join_all(ts@),
    {
        let mut r = Type::infimum();
        let mut i: usize = 0;
        while i < ts.len()
            invariant
                i <= ts.len(),
                r == Type::join_all(ts@.take(i as int)),
            decreases ts.len() - i,
        {
            assert(ts@.take(i + 1).drop_last() =~= ts@.take(i as int));
            r = r.max(&ts[i]);
            i = i + 1;
        }
        assert(ts@.take(i as int) =~= ts@);
        r
    }

    /// Whether the type holds one value per row or one value in all.
    pub fn is_value(&self) -> (r: bool)
        ensures
            r == self.is_value_spec(),
    {
        matches!(self, Type::Scalar(_) | Type::Column(_))
    }

    /// Whether the type holds one value in all.
    pub fn is_scalar(&self) -> (r: bool)
        ensures
            r == (*self is Scalar),
    {
        matches!(self, Type::Scalar(_))
    }

    /// Whether the type holds one value per row.
    pub fn is_column(&self) -> (r: bool)
        ensures
            r == (*self is Column),
    {
        matches!(self, Type::Column(_))
    }

    /// Whether the type is known to hold only zero and one.
    pub fn is_bool(&self) -> (r: bool)
        ensures
            r == self.is_bool_spec(),
    {
        match self {
            Type::Void => false,
            Type::Scalar(m) => matches!(m, Magma::Boolean),
            Type::Column(m) => matches!(m, Magma::Boolean),
            Type::List(m) => matches!(m, Magma::Boolean),
        }
    }
}

} // verus!
