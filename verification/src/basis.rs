//! The measurement basis of each qubit of a register.

use vstd::prelude::*;
use crate::error::QuantumError;
use crate::fixed::{abs, ONE, ONE_SQUARED};
use crate::utils::Vector2;

verus! {

/// The squared length of a plane vector, in units of the square of one.
pub open spec fn length_sq(v: Vector2) -> int {
    v.x * v.x + v.y * v.y
}

/// The squared length of a vector whose components are a cosine and a sine
/// rounded to nine decimal places differs from one by no more than this,
/// in units of the square of one.
pub const UNIT_SLACK: i128 = 1_500_000_000;

/// Whether `v` is of length one, as far as components of nine decimal
/// places can be.
pub open spec fn is_unit(v: Vector2) -> bool {
    abs(length_sq(v) - ONE_SQUARED) <= UNIT_SLACK
}

/// Whether two vectors are of unit length and at a right angle.
pub open spec fn is_orthonormal(pair: (Vector2, Vector2)) -> bool {
    &&& is_unit(pair.0)
    &&& is_unit(pair.1)
    &&& pair.0.x * pair.1.x + pair.0.y * pair.1.y == 0
}

/// The basis along the axes: `(1, 0)` for the outcome true, `(0, 1)` for
/// false.
pub open spec fn standard_pair() -> (Vector2, Vector2) {
    (Vector2 { x: ONE, y: 0 }, Vector2 { x: 0, y: ONE })
}

/// The columns of the rotation matrix with the given cosine and sine.
pub open spec fn rotated_pair(cos: i64, sin: i64) -> (Vector2, Vector2) {
    (Vector2 { x: cos, y: sin }, Vector2 { x: (-sin) as i64, y: cos })
}

/// Whether `v` lies along an axis, with a length of exactly one.
pub open spec fn is_sharp(v: Vector2) -> bool {
    ||| (v.x == ONE || v.x == -ONE) && v.y == 0
    ||| v.x == 0 && (v.y == ONE || v.y == -ONE)
}

/// No component of a unit vector exceeds one.
pub proof fn lemma_unit_components(v: Vector2)
    requires
        is_unit(v),
    ensures
        abs(v.x as int) <= ONE,
        abs(v.y as int) <= ONE,
{
    let x = v.x as int;
    let y = v.y as int;
    assert(abs(x) <= 1_000_000_000 && abs(y) <= 1_000_000_000) by (nonlinear_arith)
        requires
            x * x + y * y <= 1_000_000_001_500_000_000,
    ;
}

/// The standard pair is orthonormal.
pub proof fn lemma_standard_pair()
    ensures
        is_orthonormal(standard_pair()),
{
    assert(length_sq(standard_pair().0) == 1_000_000_000_000_000_000) by (nonlinear_arith)
        requires
            standard_pair().0.x == 1_000_000_000,
            standard_pair().0.y == 0,
    ;
    assert(length_sq(standard_pair().1) == 1_000_000_000_000_000_000) by (nonlinear_arith)
        requires
            standard_pair().1.x == 0,
            standard_pair().1.y == 1_000_000_000,
    ;
}

/// Whether a cosine and a sine, each rounded to nine decimal places, can be
/// those of one angle: whether their squares add up to one.
pub fn is_rotation(cos: i64, sin: i64) -> (ok: bool)
    ensures
        ok == is_unit(Vector2 { x: cos, y: sin }),
        ok ==> is_orthonormal(rotated_pair(cos, sin)),
        ok ==> abs(cos as int) <= ONE && abs(sin as int) <= ONE,
{
    let ghost v = Vector2 { x: cos, y: sin };
    if cos > ONE || cos < -ONE || sin > ONE || sin < -ONE {
        proof {
            if is_unit(v) {
                lemma_unit_components(v);
            }
        }
        return false;
    }
    proof {
        assert(0 <= cos * cos <= 1_000_000_000 * 1_000_000_000) by (nonlinear_arith)
            requires
                -1_000_000_000 <= cos <= 1_000_000_000,
        ;
        assert(0 <= sin * sin <= 1_000_000_000 * 1_000_000_000) by (nonlinear_arith)
            requires
                -1_000_000_000 <= sin <= 1_000_000_000,
        ;
    }
    let s: i128 = (cos as i128) * (cos as i128) + (sin as i128) * (sin as i128);
    proof {
        let pair = rotated_pair(cos, sin);
        assert(pair.1.x == -sin);
        assert(length_sq(pair.1) == length_sq(v)) by (nonlinear_arith)
            requires
                pair.1.x == -sin,
                pair.1.y == cos,
                v.x == cos,
                v.y == sin,
        ;
        assert(pair.0.x * pair.1.x + pair.0.y * pair.1.y == 0) by (nonlinear_arith)
            requires
                pair.0.x == cos,
                pair.0.y == sin,
                pair.1.x == -sin,
                pair.1.y == cos,
        ;
    }
    ONE_SQUARED - UNIT_SLACK <= s && s <= ONE_SQUARED + UNIT_SLACK
}

/// One orthonormal pair of basis vectors for each qubit: the first vector
/// of a pair stands for the outcome true, the second for false.
#[derive(Debug)]
pub struct Basis {
    pairs: Vec<(Vector2, Vector2)>,
}

impl View for Basis {
    type V = Seq<(Vector2, Vector2)>;

    closed spec fn view(&self) -> Seq<(Vector2, Vector2)> {
        self.pairs@
    }
}

impl Clone for Basis {
    fn clone(&self) -> (copy: Self)
        ensures
            copy@ == self@,
    {
        proof {
            use_type_invariant(self);
        }
        let mut pairs: Vec<(Vector2, Vector2)> = Vec::new();
        let mut i: usize = 0;
        while i < self.pairs.len()
            invariant
                i <= self.pairs.len(),
                pairs.len() == i,
                forall|k: int|
                    0 <= k < self.pairs@.len() ==> is_orthonormal(#[trigger] self.pairs@[k]),
                forall|k: int| 0 <= k < i ==> #[trigger] pairs@[k] == self.pairs@[k],
            decreases self.pairs.len() - i,
        {
            pairs.push(self.pairs[i]);
            i += 1;
        }
        assert(pairs@ =~= self.pairs@);
        Basis { pairs }
    }
}

impl Basis {
    #[verifier::type_invariant]
    spec fn well_formed(self) -> bool {
        forall|i: int| 0 <= i < self.pairs@.len() ==> is_orthonormal(#[trigger] self.pairs@[i])
    }

    /// The standard basis for each of `n` qubits.
    pub fn new(n: usize) -> (basis: Self)
        ensures
            basis@.len() == n,
            forall|i: int| 0 <= i < n ==> #[trigger] basis@[i] == standard_pair(),
    {
        let mut pairs: Vec<(Vector2, Vector2)> = Vec::new();
        let mut i: usize = 0;
        proof {
            lemma_standard_pair();
        }
        while i < n
            invariant
                i <= n,
                pairs.len() == i,
                is_orthonormal(standard_pair()),
                forall|k: int| 0 <= k < i ==> #[trigger] pairs@[k] == standard_pair(),
            decreases n - i,
        {
            pairs.push((Vector2 { x: ONE, y: 0 }, Vector2 { x: 0, y: ONE }));
            i += 1;
        }
        Basis { pairs }
    }

    /// The number of qubits.
    pub fn len(&self) -> (n: usize)
        ensures
            n == self@.len(),
    {
        self.pairs.len()
    }

    /// The pair of basis vectors of qubit `index`, which is orthonormal.
    pub fn get_basis(&self, index: usize) -> (pair: (Vector2, Vector2))
        requires
            index < self@.len(),
        ensures
            pair == self@[index as int],
            is_orthonormal(pair),
    {
        proof {
            use_type_invariant(self);
        }
        self.pairs[index]
    }

    /// Replaces the pair of qubit `index` by the two columns of the rotation
    /// matrix with the given cosine and sine, and returns a copy of the
    /// basis as it then is.  The angle of this rotation is half the angle by
    /// which the measuring apparatus is turned.  A cosine and a sine whose
    /// squares do not add up to one are refused, and the basis stays as it
    /// was.
    pub fn rotate_to_angle(&mut self, cos: i64, sin: i64, index: usize) -> (r: Result<
        Self,
        QuantumError,
    >)
        requires
            index < old(self)@.len(),
        ensures
            match r {
                Ok(copy) => {
                    &&& is_unit(Vector2 { x: cos, y: sin })
                    &&& final(self)@ == old(self)@.update(index as int, rotated_pair(cos, sin))
                    &&& copy@ == final(self)@
                },
                Err(e) => {
                    &&& e == QuantumError::InvariantViolation
                    &&& !is_unit(Vector2 { x: cos, y: sin })
                    &&& final(self)@ == old(self)@
                },
            },
    {
        proof {
            use_type_invariant(&*self);
        }
        if !is_rotation(cos, sin) {
            return Err(QuantumError::InvariantViolation);
        }
        let pair = (Vector2 { x: cos, y: sin }, Vector2 { x: -sin, y: cos });
        assert(pair == rotated_pair(cos, sin));
        let mut pairs: Vec<(Vector2, Vector2)> = Vec::new();
        let mut i: usize = 0;
        while i < self.pairs.len()
            invariant
                i <= self.pairs.len(),
                index < self.pairs.len(),
                pairs.len() == i,
                is_orthonormal(pair),
                forall|k: int|
                    0 <= k < self.pairs@.len() ==> is_orthonormal(#[trigger] self.pairs@[k]),
                forall|k: int|
                    0 <= k < i ==> #[trigger] pairs@[k] == (if k == index {
                        pair
                    } else {
                        self.pairs@[k]
                    }),
            decreases self.pairs.len() - i,
        {
            pairs.push(if i == index { pair } else { self.pairs[i] });
            i += 1;
        }
        assert(pairs@ =~= self.pairs@.update(index as int, pair));
        self.pairs = pairs;
        Ok(self.clone())
    }
}

} // verus!
