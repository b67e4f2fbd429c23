//! Literals, clauses, three-valued assignments and solver results.

use vstd::prelude::*;

verus! {

/// The polarity of a literal.
#[derive(Clone, Copy, Debug, PartialEq, Eq, Hash, Structural)]
pub enum Sign {
    Pos,
    Neg,
}

/// A literal: a variable, held by its zero-based index, together with a
/// polarity. Variable `v` of the input (counted from one) has index `v - 1`.
#[derive(Clone, Copy, Debug, PartialEq, Eq, Hash, Structural)]
pub struct Lit {
    pub index: usize,
    pub sign: Sign,
}

/// The state of one variable: true, false or not yet assigned.
#[derive(Clone, Copy, Debug, PartialEq, Eq, Structural)]
pub enum Assignment {
    Top,
    Bot,
    Unassigned,
}

/// A disjunction of literals.
#[derive(Debug, PartialEq, Eq)]
pub struct Clause {
    pub lits: Vec<Lit>,
}

/// A total truth assignment, one value per variable in index order.
#[derive(Debug, PartialEq, Eq)]
pub struct Model {
    pub assignments: Vec<bool>,
}

/// The verdict of a solver run.
#[derive(Debug, PartialEq, Eq)]
pub enum SATResult {
    SAT { model: Model },
    UNSAT,
}

/// The states of all variables, in index order.
#[derive(Debug)]
pub struct Assignments {
    pub assignments: Vec<Assignment>,
}

impl View for Assignments {
    type V = Seq<Assignment>;

    open spec fn view(&self) -> Seq<Assignment> {
        self.assignments@
    }
}

impl View for Clause {
    type V = Seq<Lit>;

    open spec fn view(&self) -> Seq<Lit> {
        self.lits@
    }
}

impl Sign {
    /// The opposite polarity.
    pub open spec fn flipped(self) -> Sign {
        match self {
            Sign::Pos => Sign::Neg,
            Sign::Neg => Sign::Pos,
        }
    }
}

impl Lit {
    /// The signed, one-based number that stands for this literal in DIMACS text.
    pub open spec fn signed_value(self) -> int {
        match self.sign {
            Sign::Pos => self.index + 1,
            Sign::Neg => -(self.index + 1),
        }
    }

    /// Whether `val` names a literal whose variable index fits the machine.
    pub open spec fn representable(val: int) -> bool {
        val != 0 && (if val > 0 {
            val - 1
        } else {
            -val - 1
        }) <= usize::MAX
    }

    /// The literal with the opposite polarity on the same variable.
    pub open spec fn negated(self) -> Lit {
        Lit { index: self.index, sign: self.sign.flipped() }
    }

    /// The literal named by a nonzero signed number, or `None` when the
    /// number is zero or its variable index does not fit the machine.
    pub fn new(val: i64) -> (r: Option<Lit>)
        ensures
            r is Some <==> Lit::representable(val as int),
            r matches Some(l) ==> l.signed_value() == val,
    {
        if val > 0 {
            let idx: u64 = (val - 1) as u64;
            if idx <= usize::MAX as u64 {
                Some(Lit { index: idx as usize, sign: Sign::Pos })
            } else {
                None
            }
        } else if val < 0 {
            let idx: u64 = (-(val + 1)) as u64;
            if idx <= usize::MAX as u64 {
                Some(Lit { index: idx as usize, sign: Sign::Neg })
            } else {
                None
            }
        } else {
            None
        }
    }

    /// The literal named by a nonzero signed number.
    pub fn from_i64(val: i64) -> (l: Lit)
        requires
            Lit::representable(val as int),
        ensures
            l.signed_value() == val,
    {
        if val > 0 {
            Lit { index: (val - 1) as usize, sign: Sign::Pos }
        } else {
            Lit { index: (-(val + 1)) as usize, sign: Sign::Neg }
        }
    }

    /// The polarity of this literal.
    pub fn sign(self) -> (s: Sign)
        ensures
            s == self.sign,
    {
        self.sign
    }

    /// The signed, one-based number of this literal.
    pub fn to_i64(self) -> (val: i64)
        requires
            self.index < i64::MAX,
        ensures
            val == self.signed_value(),
    {
        let magnitude: i64 = self.index as i64 + 1;
        match self.sign {
            Sign::Pos => magnitude,
            Sign::Neg => -magnitude,
        }
    }
}

impl Clause {
    /// A clause holding the given literals in order.
    pub fn from_vec(lits: Vec<Lit>) -> (c: Clause)
        ensures
            c@ == lits@,
    {
        Clause { lits }
    }

    /// The number of literals.
    pub fn len(&self) -> (n: usize)
        ensures
            n == self@.len(),
    {
        self.lits.len()
    }

    /// The literals in order.
    pub fn lits(&self) -> (l: &Vec<Lit>)
        ensures
            l@ == self@,
    {
        &self.lits
    }
}

impl Clone for Clause {
    /// A clause with the same literals.
    fn clone(&self) -> (c: Clause)
        ensures
            c@ == self@,
    {
        let mut lits: Vec<Lit> = Vec::new();
        let mut j: usize = 0;
        while j < self.lits.len()
            invariant
                j <= self.lits.len(),
                lits@ == self.lits@.take(j as int),
            decreases self.lits.len() - j,
        {
            lits.push(self.lits[j]);
            j += 1;
        }
        Clause { lits }
    }
}

impl Assignments {
    /// `num_vars` variables, none of them assigned.
    pub fn all_unassigned(num_vars: usize) -> (a: Assignments)
        ensures
            a@.len() == num_vars,
            forall|v: int| 0 <= v < num_vars ==> a@[v] == Assignment::Unassigned,
    {
        let mut assignments: Vec<Assignment> = Vec::new();
        let mut v: usize = 0;
        while v < num_vars
            invariant
                v <= num_vars,
                assignments@.len() == v,
                forall|w: int| 0 <= w < v ==> assignments@[w] == Assignment::Unassigned,
            decreases num_vars - v,
        {
            assignments.push(Assignment::Unassigned);
            v += 1;
        }
        Assignments { assignments }
    }

    /// Whether every variable has a value.
    pub fn all_set(&self) -> (r: bool)
        ensures
            r == (forall|v: int| 0 <= v < self@.len() ==> self@[v] != Assignment::Unassigned),
    {
        search_unassigned(&self.assignments).is_none()
    }
}

/// The lowest index whose variable is unassigned, if there is one.
pub fn search_unassigned(v: &Vec<Assignment>) -> (r: Option<usize>)
    ensures
        match r {
            Some(i) => i < v@.len() && v@[i as int] == Assignment::Unassigned && forall|w: int|
                0 <= w < i ==> v@[w] != Assignment::Unassigned,
            None => forall|w: int| 0 <= w < v@.len() ==> v@[w] != Assignment::Unassigned,
        },
{
    let mut i: usize = 0;
    while i < v.len()
        invariant
            i <= v.len(),
            forall|w: int| 0 <= w < i ==> v@[w] != Assignment::Unassigned,
        decreases v.len() - i,
    {
        if v[i] == Assignment::Unassigned {
            return Some(i);
        }
        i += 1;
    }
    None
}

impl Assignment {
    /// The Boolean value of an assigned variable.
    pub fn to_bool(&self) -> (b: bool)
        requires
            *self != Assignment::Unassigned,
        ensures
            b == (*self == Assignment::Top),
    {
        match self {
            Assignment::Top => true,
            _ => false,
        }
    }
}

/// The zero-based index of the literal's variable.
pub fn lit_to_index(lit: Lit) -> (index: usize)
    ensures
        index == lit.index,
{
    lit.index
}

/// The literal on variable `index` that is true when the variable has the
/// given value.
pub fn index_to_lit(index: usize, assignment: Assignment) -> (lit: Lit)
    requires
        assignment != Assignment::Unassigned,
    ensures
        lit.index == index,
        lit.sign == (if assignment == Assignment::Top {
            Sign::Pos
        } else {
            Sign::Neg
        }),
{
    match assignment {
        Assignment::Top => Lit { index, sign: Sign::Pos },
        _ => Lit { index, sign: Sign::Neg },
    }
}

/// The literal with the opposite polarity on the same variable.
pub fn negate(lit: Lit) -> (neg: Lit)
    ensures
        neg == lit.negated(),
{
    match lit.sign {
        Sign::Pos => Lit { index: lit.index, sign: Sign::Neg },
        Sign::Neg => Lit { index: lit.index, sign: Sign::Pos },
    }
}

/// The value a variable must take for a literal of this polarity to be true.
pub fn assignment_from_sign(sign: Sign) -> (a: Assignment)
    ensures
        a == sign_value(sign),
{
    match sign {
        Sign::Pos => Assignment::Top,
        Sign::Neg => Assignment::Bot,
    }
}

/// The value that makes a literal of polarity `sign` true.
pub open spec fn sign_value(sign: Sign) -> Assignment {
    match sign {
        Sign::Pos => Assignment::Top,
        Sign::Neg => Assignment::Bot,
    }
}

} // verus!
