//! Formulas of propositional classical linear logic, with a total
//! structural order used to keep multisets in canonical form.

use vstd::prelude::*;

verus! {

/// A formula of propositional classical linear logic: a finite tree whose
/// nodes are the twelve connectives. `Dual` is kept as written; DeMorgan
/// pushdown happens lazily inside the inference generator.
#[derive(Debug, PartialEq, Eq, Hash)]
pub enum Ast {
    /// Unit for multiplicative conjunction.
    One,
    /// Unit for multiplicative disjunction.
    Bottom,
    /// Unit for additive conjunction.
    Top,
    /// Unit for additive disjunction.
    Zero,
    /// Propositional variable identified by number.
    Value(usize),
    /// The "of course" exponential.
    Bang(Box<Ast>),
    /// The "why not" exponential.
    Quest(Box<Ast>),
    /// Dual, i.e. linear negation.
    Dual(Box<Ast>),
    /// Multiplicative conjunction.
    Times(Box<Ast>, Box<Ast>),
    /// Multiplicative disjunction.
    Par(Box<Ast>, Box<Ast>),
    /// Additive conjunction.
    With(Box<Ast>, Box<Ast>),
    /// Additive disjunction.
    Plus(Box<Ast>, Box<Ast>),
}

impl Clone for Ast {
    /// Deep copy; the copy is the same value.
    fn clone(&self) -> (r: Self)
        ensures
            r == *self,
        decreases *self,
    {
        match self {
            Ast::One => Ast::One,
            Ast::Bottom => Ast::Bottom,
            Ast::Top => Ast::Top,
            Ast::Zero => Ast::Zero,
            Ast::Value(i) => Ast::Value(*i),
            Ast::Bang(a) => Ast::Bang(Box::new((**a).clone())),
            Ast::Quest(a) => Ast::Quest(Box::new((**a).clone())),
            Ast::Dual(a) => Ast::Dual(Box::new((**a).clone())),
            Ast::Times(a, b) => Ast::Times(Box::new((**a).clone()), Box::new((**b).clone())),
            Ast::Par(a, b) => Ast::Par(Box::new((**a).clone()), Box::new((**b).clone())),
            Ast::With(a, b) => Ast::With(Box::new((**a).clone()), Box::new((**b).clone())),
            Ast::Plus(a, b) => Ast::Plus(Box::new((**a).clone()), Box::new((**b).clone())),
        }
    }
}

/// Rank of a formula's outermost connective, in declaration order.
pub open spec fn tag(a: Ast) -> int {
    match a {
        Ast::One => 0,
        Ast::Bottom => 1,
        Ast::Top => 2,
        Ast::Zero => 3,
        Ast::Value(_) => 4,
        Ast::Bang(_) => 5,
        Ast::Quest(_) => 6,
        Ast::Dual(_) => 7,
        Ast::Times(_, _) => 8,
        Ast::Par(_, _) => 9,
        Ast::With(_, _) => 10,
        Ast::Plus(_, _) => 11,
    }
}

/// Total structural order on formulas: outermost connective first, then
/// children left to right.
pub open spec fn ast_cmp_spec(a: Ast, b: Ast) -> core::cmp::Ordering
    decreases a,
{
    if tag(a) < tag(b) {
        core::cmp::Ordering::Less
    } else if tag(a) > tag(b) {
        core::cmp::Ordering::Greater
    } else {
        match (a, b) {
            (Ast::Value(i), Ast::Value(j)) => if i < j {
                core::cmp::Ordering::Less
            } else if i > j {
                core::cmp::Ordering::Greater
            } else {
                core::cmp::Ordering::Equal
            },
            (Ast::Bang(x), Ast::Bang(y)) => ast_cmp_spec(*x, *y),
            (Ast::Quest(x), Ast::Quest(y)) => ast_cmp_spec(*x, *y),
            (Ast::Dual(x), Ast::Dual(y)) => ast_cmp_spec(*x, *y),
            (Ast::Times(x1, y1), Ast::Times(x2, y2)) => lex(
                ast_cmp_spec(*x1, *x2),
                ast_cmp_spec(*y1, *y2),
            ),
            (Ast::Par(x1, y1), Ast::Par(x2, y2)) => lex(
                ast_cmp_spec(*x1, *x2),
                ast_cmp_spec(*y1, *y2),
            ),
            (Ast::With(x1, y1), Ast::With(x2, y2)) => lex(
                ast_cmp_spec(*x1, *x2),
                ast_cmp_spec(*y1, *y2),
            ),
            (Ast::Plus(x1, y1), Ast::Plus(x2, y2)) => lex(
                ast_cmp_spec(*x1, *x2),
                ast_cmp_spec(*y1, *y2),
            ),
            _ => core::cmp::Ordering::Equal,
        }
    }
}

/// Lexicographic combination: the first comparison unless it is a tie.
pub open spec fn lex(first: core::cmp::Ordering, second: core::cmp::Ordering) -> core::cmp::Ordering {
    if first == core::cmp::Ordering::Equal {
        second
    } else {
        first
    }
}

/// The comparison is reflexive on equality: a tie means the same formula.
pub proof fn lemma_ast_cmp_eq(a: Ast, b: Ast)
    ensures
        (ast_cmp_spec(a, b) == core::cmp::Ordering::Equal) <==> a == b,
    decreases a,
{
    match (a, b) {
        (Ast::Bang(x), Ast::Bang(y)) => lemma_ast_cmp_eq(*x, *y),
        (Ast::Quest(x), Ast::Quest(y)) => lemma_ast_cmp_eq(*x, *y),
        (Ast::Dual(x), Ast::Dual(y)) => lemma_ast_cmp_eq(*x, *y),
        (Ast::Times(x1, y1), Ast::Times(x2, y2)) => {
            lemma_ast_cmp_eq(*x1, *x2);
            lemma_ast_cmp_eq(*y1, *y2);
        }
        (Ast::Par(x1, y1), Ast::Par(x2, y2)) => {
            lemma_ast_cmp_eq(*x1, *x2);
            lemma_ast_cmp_eq(*y1, *y2);
        }
        (Ast::With(x1, y1), Ast::With(x2, y2)) => {
            lemma_ast_cmp_eq(*x1, *x2);
            lemma_ast_cmp_eq(*y1, *y2);
        }
        (Ast::Plus(x1, y1), Ast::Plus(x2, y2)) => {
            lemma_ast_cmp_eq(*x1, *x2);
            lemma_ast_cmp_eq(*y1, *y2);
        }
        _ => {}
    }
}

/// Swapping the arguments reverses the comparison.
pub proof fn lemma_ast_cmp_flip(a: Ast, b: Ast)
    ensures
        (ast_cmp_spec(a, b) == core::cmp::Ordering::Less) <==> (ast_cmp_spec(b, a)
            == core::cmp::Ordering::Greater),
        (ast_cmp_spec(a, b) == core::cmp::Ordering::Equal) <==> (ast_cmp_spec(b, a)
            == core::cmp::Ordering::Equal),
    decreases a,
{
    match (a, b) {
        (Ast::Bang(x), Ast::Bang(y)) => lemma_ast_cmp_flip(*x, *y),
        (Ast::Quest(x), Ast::Quest(y)) => lemma_ast_cmp_flip(*x, *y),
        (Ast::Dual(x), Ast::Dual(y)) => lemma_ast_cmp_flip(*x, *y),
        (Ast::Times(x1, y1), Ast::Times(x2, y2)) => {
            lemma_ast_cmp_flip(*x1, *x2);
            lemma_ast_cmp_flip(*y1, *y2);
        }
        (Ast::Par(x1, y1), Ast::Par(x2, y2)) => {
            lemma_ast_cmp_flip(*x1, *x2);
            lemma_ast_cmp_flip(*y1, *y2);
        }
        (Ast::With(x1, y1), Ast::With(x2, y2)) => {
            lemma_ast_cmp_flip(*x1, *x2);
            lemma_ast_cmp_flip(*y1, *y2);
        }
        (Ast::Plus(x1, y1), Ast::Plus(x2, y2)) => {
            lemma_ast_cmp_flip(*x1, *x2);
            lemma_ast_cmp_flip(*y1, *y2);
        }
        _ => {}
    }
}

/// The strict order is transitive.
pub proof fn lemma_ast_cmp_trans(a: Ast, b: Ast, c: Ast)
    requires
        ast_cmp_spec(a, b) == core::cmp::Ordering::Less,
        ast_cmp_spec(b, c) == core::cmp::Ordering::Less,
    ensures
        ast_cmp_spec(a, c) == core::cmp::Ordering::Less,
    decreases a,
{
    if tag(a) == tag(b) && tag(b) == tag(c) {
        match (a, b, c) {
            (Ast::Bang(x), Ast::Bang(y), Ast::Bang(z)) => lemma_ast_cmp_trans(*x, *y, *z),
            (Ast::Quest(x), Ast::Quest(y), Ast::Quest(z)) => lemma_ast_cmp_trans(*x, *y, *z),
            (Ast::Dual(x), Ast::Dual(y), Ast::Dual(z)) => lemma_ast_cmp_trans(*x, *y, *z),
            (Ast::Times(x1, y1), Ast::Times(x2, y2), Ast::Times(x3, y3)) => {
                lemma_ast_cmp_eq(*x1, *x2);
                lemma_ast_cmp_eq(*x2, *x3);
                lemma_ast_cmp_eq(*x1, *x3);
                if *x1 == *x2 && *x2 == *x3 {
                    lemma_ast_cmp_trans(*y1, *y2, *y3);
                } else if *x1 != *x2 && *x2 != *x3 {
                    lemma_ast_cmp_trans(*x1, *x2, *x3);
                }
            }
            (Ast::Par(x1, y1), Ast::Par(x2, y2), Ast::Par(x3, y3)) => {
                lemma_ast_cmp_eq(*x1, *x2);
                lemma_ast_cmp_eq(*x2, *x3);
                lemma_ast_cmp_eq(*x1, *x3);
                if *x1 == *x2 && *x2 == *x3 {
                    lemma_ast_cmp_trans(*y1, *y2, *y3);
                } else if *x1 != *x2 && *x2 != *x3 {
                    lemma_ast_cmp_trans(*x1, *x2, *x3);
                }
            }
            (Ast::With(x1, y1), Ast::With(x2, y2), Ast::With(x3, y3)) => {
                lemma_ast_cmp_eq(*x1, *x2);
                lemma_ast_cmp_eq(*x2, *x3);
                lemma_ast_cmp_eq(*x1, *x3);
                if *x1 == *x2 && *x2 == *x3 {
                    lemma_ast_cmp_trans(*y1, *y2, *y3);
                } else if *x1 != *x2 && *x2 != *x3 {
                    lemma_ast_cmp_trans(*x1, *x2, *x3);
                }
            }
            (Ast::Plus(x1, y1), Ast::Plus(x2, y2), Ast::Plus(x3, y3)) => {
                lemma_ast_cmp_eq(*x1, *x2);
                lemma_ast_cmp_eq(*x2, *x3);
                lemma_ast_cmp_eq(*x1, *x3);
                if *x1 == *x2 && *x2 == *x3 {
                    lemma_ast_cmp_trans(*y1, *y2, *y3);
                } else if *x1 != *x2 && *x2 != *x3 {
                    lemma_ast_cmp_trans(*x1, *x2, *x3);
                }
            }
            _ => {}
        }
    }
}

impl Ast {
    /// Rank of the outermost connective, for the structural order.
    pub fn tag_of(&self) -> (t: u8)
        ensures
            t as int == tag(*self),
    {
        match self {
            Ast::One => 0,
            Ast::Bottom => 1,
            Ast::Top => 2,
            Ast::Zero => 3,
            Ast::Value(_) => 4,
            Ast::Bang(_) => 5,
            Ast::Quest(_) => 6,
            Ast::Dual(_) => 7,
            Ast::Times(_, _) => 8,
            Ast::Par(_, _) => 9,
            Ast::With(_, _) => 10,
            Ast::Plus(_, _) => 11,
        }
    }

    /// Three-way structural comparison, the executable side of
    /// [`ast_cmp_spec`].
    pub fn compare(&self, other: &Ast) -> (r: core::cmp::Ordering)
        ensures
            r == ast_cmp_spec(*self, *other),
        decreases *self,
    {
        let ta = self.tag_of();
        let tb = other.tag_of();
        if ta < tb {
            return core::cmp::Ordering::Less;
        }
        if ta > tb {
            return core::cmp::Ordering::Greater;
        }
        match (self, other) {
            (Ast::Value(i), Ast::Value(j)) => if i < j {
                core::cmp::Ordering::Less
            } else if i > j {
                core::cmp::Ordering::Greater
            } else {
                core::cmp::Ordering::Equal
            },
            (Ast::Bang(x), Ast::Bang(y)) => x.compare(y),
            (Ast::Quest(x), Ast::Quest(y)) => x.compare(y),
            (Ast::Dual(x), Ast::Dual(y)) => x.compare(y),
            (Ast::Times(x1, y1), Ast::Times(x2, y2)) => {
                let c = x1.compare(x2);
                if matches!(c, core::cmp::Ordering::Equal) {
                    y1.compare(y2)
                } else {
                    c
                }
            }
            (Ast::Par(x1, y1), Ast::Par(x2, y2)) => {
                let c = x1.compare(x2);
                if matches!(c, core::cmp::Ordering::Equal) {
                    y1.compare(y2)
                } else {
                    c
                }
            }
            (Ast::With(x1, y1), Ast::With(x2, y2)) => {
                let c = x1.compare(x2);
                if matches!(c, core::cmp::Ordering::Equal) {
                    y1.compare(y2)
                } else {
                    c
                }
            }
            (Ast::Plus(x1, y1), Ast::Plus(x2, y2)) => {
                let c = x1.compare(x2);
                if matches!(c, core::cmp::Ordering::Equal) {
                    y1.compare(y2)
                } else {
                    c
                }
            }
            _ => core::cmp::Ordering::Equal,
        }
    }

    /// Structural equality, decided through [`Ast::compare`].
    pub fn same(&self, other: &Ast) -> (r: bool)
        ensures
            r == (*self == *other),
    {
        let c = self.compare(other);
        proof {
            lemma_ast_cmp_eq(*self, *other);
        }
        matches!(c, core::cmp::Ordering::Equal)
    }

    /// Par operator as a method, for building formulas.
    #[must_use]
    pub fn par(self, rhs: Self) -> (r: Self)
        ensures
            r == Ast::Par(Box::new(self), Box::new(rhs)),
    {
        Ast::Par(Box::new(self), Box::new(rhs))
    }

    /// Multiplicative conjunction as a method.
    #[must_use]
    pub fn times(self, rhs: Self) -> (r: Self)
        ensures
            r == Ast::Times(Box::new(self), Box::new(rhs)),
    {
        Ast::Times(Box::new(self), Box::new(rhs))
    }

    /// Additive conjunction as a method.
    #[must_use]
    pub fn with(self, rhs: Self) -> (r: Self)
        ensures
            r == Ast::With(Box::new(self), Box::new(rhs)),
    {
        Ast::With(Box::new(self), Box::new(rhs))
    }

    /// Additive disjunction as a method.
    #[must_use]
    pub fn plus(self, rhs: Self) -> (r: Self)
        ensures
            r == Ast::Plus(Box::new(self), Box::new(rhs)),
    {
        Ast::Plus(Box::new(self), Box::new(rhs))
    }

    /// Linear negation as a method.
    #[must_use]
    pub fn dual(self) -> (r: Self)
        ensures
            r == Ast::Dual(Box::new(self)),
    {
        Ast::Dual(Box::new(self))
    }

    /// Linear implication: `A -* B` is `~A par B`.
    #[must_use]
    pub fn lollipop(self, rhs: Self) -> (r: Self)
        ensures
            r == Ast::Par(Box::new(Ast::Dual(Box::new(self))), Box::new(rhs)),
    {
        Ast::Par(Box::new(Ast::Dual(Box::new(self))), Box::new(rhs))
    }
}

/// The "of course" exponential.
#[must_use]
pub fn bang(arg: Ast) -> (r: Ast)
    ensures
        r == Ast::Bang(Box::new(arg)),
{
    Ast::Bang(Box::new(arg))
}

/// The "why not" exponential.
#[must_use]
pub fn quest(arg: Ast) -> (r: Ast)
    ensures
        r == Ast::Quest(Box::new(arg)),
{
    Ast::Quest(Box::new(arg))
}

/// One DeMorgan step: the dual of each connective, with `Dual` pushed onto
/// the children. A double dual cancels. The `Value` case is returned
/// unchanged; the inference generator never rewrites a stuck literal.
pub open spec fn de_morgan_spec(d: Ast) -> Ast {
    match d {
        Ast::One => Ast::Bottom,
        Ast::Bottom => Ast::One,
        Ast::Top => Ast::Zero,
        Ast::Zero => Ast::Top,
        Ast::Value(i) => Ast::Value(i),
        Ast::Bang(x) => Ast::Quest(Box::new(Ast::Dual(x))),
        Ast::Quest(x) => Ast::Bang(Box::new(Ast::Dual(x))),
        Ast::Dual(x) => *x,
        Ast::Times(x, y) => Ast::Par(Box::new(Ast::Dual(x)), Box::new(Ast::Dual(y))),
        Ast::Par(x, y) => Ast::Times(Box::new(Ast::Dual(x)), Box::new(Ast::Dual(y))),
        Ast::With(x, y) => Ast::Plus(Box::new(Ast::Dual(x)), Box::new(Ast::Dual(y))),
        Ast::Plus(x, y) => Ast::With(Box::new(Ast::Dual(x)), Box::new(Ast::Dual(y))),
    }
}

impl Ast {
    /// One executable DeMorgan step; `None` exactly on a bare variable,
    /// which stays a stuck literal under the dual.
    pub fn de_morgan_step(&self) -> (r: Option<Ast>)
        ensures
            match r {
                Some(a) => a == de_morgan_spec(*self) && !(self is Value),
                None => self is Value,
            },
    {
        match self {
            Ast::One => Some(Ast::Bottom),
            Ast::Bottom => Some(Ast::One),
            Ast::Top => Some(Ast::Zero),
            Ast::Zero => Some(Ast::Top),
            Ast::Value(_) => None,
            Ast::Bang(x) => Some(Ast::Quest(Box::new(Ast::Dual(Box::new((**x).clone()))))),
            Ast::Quest(x) => Some(Ast::Bang(Box::new(Ast::Dual(Box::new((**x).clone()))))),
            Ast::Dual(x) => Some((**x).clone()),
            Ast::Times(x, y) => Some(Ast::Par(
                Box::new(Ast::Dual(Box::new((**x).clone()))),
                Box::new(Ast::Dual(Box::new((**y).clone()))),
            )),
            Ast::Par(x, y) => Some(Ast::Times(
                Box::new(Ast::Dual(Box::new((**x).clone()))),
                Box::new(Ast::Dual(Box::new((**y).clone()))),
            )),
            Ast::With(x, y) => Some(Ast::Plus(
                Box::new(Ast::Dual(Box::new((**x).clone()))),
                Box::new(Ast::Dual(Box::new((**y).clone()))),
            )),
            Ast::Plus(x, y) => Some(Ast::With(
                Box::new(Ast::Dual(Box::new((**x).clone()))),
                Box::new(Ast::Dual(Box::new((**y).clone()))),
            )),
        }
    }
}

} // verus!
