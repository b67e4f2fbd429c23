//! The choice of a search procedure, and how a verdict is put into words.

use vstd::prelude::*;
use vstd::string::StringExecFns;
use crate::algorithm::cdcl::cdcl_algorithm;
use crate::algorithm::dpll::dpll_algorithm;
use crate::algorithm::formula::{
    first_model,
    formula_in_range,
    formula_of,
    formula_true,
    lemma_first_model_unique,
    satisfiable,
};
use crate::algorithm::interface::{Clause, Lit, Model, SATResult, Sign};
use crate::algorithm::simple::simple_algorithm;
use crate::delta_debug::{joined, lit_text, lit_to_string};

verus! {

/// The search procedures to choose from.
#[derive(Clone, Copy, Debug, PartialEq, Eq, Structural)]
pub enum AlgorithmType {
    Simple,
    DPLL,
    CDCL,
}

impl Default for AlgorithmType {
    /// DPLL is the procedure used where none is named.
    fn default() -> (r: AlgorithmType)
        ensures
            r == AlgorithmType::DPLL,
    {
        AlgorithmType::DPLL
    }
}

/// The text in lower case, as `str::to_lowercase` gives it.
pub uninterp spec fn lowercase_of(text: Seq<char>) -> Seq<char>;

/// Calls `str::to_lowercase`. The contract claims only that the result is
/// a function of the text.
#[verifier::external_body]
fn lowercase(text: &str) -> (lower: String)
    ensures
        lower@ == lowercase_of(text@),
{
    text.to_lowercase()
}

/// The procedure that a name in lower case stands for.
pub open spec fn named(lower: Seq<char>) -> Option<AlgorithmType> {
    if lower == "simple"@ {
        Some(AlgorithmType::Simple)
    } else if lower == "dpll"@ {
        Some(AlgorithmType::DPLL)
    } else if lower == "cdcl"@ {
        Some(AlgorithmType::CDCL)
    } else {
        None
    }
}

/// The message for a name that stands for no procedure.
pub open spec fn not_recognized(given: Seq<char>) -> Seq<char> {
    "Not recognized"@ + given + "\nSupported algorithms: \"simple\", \"dpll\", \"cdcl\""@
}

/// Whether two texts hold the same characters.
fn same_text(a: &str, b: &str) -> (same: bool)
    ensures
        same == (a@ == b@),
{
    String::from_str(a) == String::from_str(b)
}

impl AlgorithmType {
    /// The name of the procedure, in lower case.
    pub open spec fn lower_name(self) -> Seq<char> {
        match self {
            AlgorithmType::Simple => "simple"@,
            AlgorithmType::DPLL => "dpll"@,
            AlgorithmType::CDCL => "cdcl"@,
        }
    }

    /// The name of the procedure, in lower case.
    pub fn name(&self) -> (s: String)
        ensures
            s@ == self.lower_name(),
    {
        match self {
            AlgorithmType::Simple => String::from_str("simple"),
            AlgorithmType::DPLL => String::from_str("dpll"),
            AlgorithmType::CDCL => String::from_str("cdcl"),
        }
    }

    /// The procedure that `lower` names, where `lower` is the lower case of
    /// the name `given`; else the message that says which names are known.
    pub fn from_lowercase(lower: &str, given: &str) -> (r: Result<AlgorithmType, String>)
        ensures
            match named(lower@) {
                Some(algorithm) => r == Ok::<AlgorithmType, String>(algorithm),
                None => r matches Err(message) && message@ == not_recognized(given@),
            },
    {
        if same_text(lower, "simple") {
            Ok(AlgorithmType::Simple)
        } else if same_text(lower, "dpll") {
            Ok(AlgorithmType::DPLL)
        } else if same_text(lower, "cdcl") {
            Ok(AlgorithmType::CDCL)
        } else {
            let mut message = String::from_str("Not recognized");
            message.append(given);
            message.append("\nSupported algorithms: \"simple\", \"dpll\", \"cdcl\"");
            Err(message)
        }
    }

    /// The procedure that a name stands for, whatever the case of its
    /// letters; else the message that says which names are known.
    pub fn from_name(s: &str) -> (r: Result<AlgorithmType, String>)
        ensures
            match named(lowercase_of(s@)) {
                Some(algorithm) => r == Ok::<AlgorithmType, String>(algorithm),
                None => r matches Err(message) && message@ == not_recognized(s@),
            },
    {
        let lower = lowercase(s);
        AlgorithmType::from_lowercase(lower.as_str(), s)
    }
}

impl std::str::FromStr for AlgorithmType {
    type Err = String;

    /// The procedure that a name stands for, whatever the case of its
    /// letters; else the message that says which names are known.
    fn from_str(s: &str) -> (r: Result<Self, Self::Err>)
        ensures
            match named(lowercase_of(s@)) {
                Some(algorithm) => r == Ok::<AlgorithmType, String>(algorithm),
                None => r matches Err(message) && message@ == not_recognized(s@),
            },
    {
        AlgorithmType::from_name(s)
    }
}

/// What a verdict says of the formula: it is `SAT` exactly when the formula
/// is satisfiable, and then it comes with the first model in the order of
/// the search.
pub open spec fn verdict_of(num_vars: nat, formula: Seq<Seq<Lit>>, res: SATResult) -> bool {
    &&& res is SAT <==> satisfiable(num_vars, formula)
    &&& res matches SATResult::SAT { model } ==> first_model(num_vars, formula, model.assignments@)
}

/// The three procedures give one formula the same verdict and, with `SAT`,
/// the same model.
pub proof fn lemma_verdicts_agree(
    num_vars: nat,
    formula: Seq<Seq<Lit>>,
    simple: SATResult,
    dpll: SATResult,
    cdcl: SATResult,
)
    requires
        verdict_of(num_vars, formula, simple),
        verdict_of(num_vars, formula, dpll),
        verdict_of(num_vars, formula, cdcl),
    ensures
        simple is SAT <==> dpll is SAT,
        dpll is SAT <==> cdcl is SAT,
        simple is SAT ==> simple->model.assignments@ == dpll->model.assignments@
            && dpll->model.assignments@ == cdcl->model.assignments@,
{
    if simple is SAT {
        lemma_first_model_unique(
            num_vars,
            formula,
            simple->model.assignments@,
            dpll->model.assignments@,
        );
        lemma_first_model_unique(
            num_vars,
            formula,
            dpll->model.assignments@,
            cdcl->model.assignments@,
        );
    }
}

/// The model of a `SAT` verdict gives every variable a value and makes
/// every clause of the formula true.
pub proof fn lemma_model_satisfies(num_vars: nat, formula: Seq<Seq<Lit>>, res: SATResult)
    requires
        verdict_of(num_vars, formula, res),
        res is SAT,
    ensures
        formula_true(formula, res->model.assignments@),
        res->model.assignments@.len() == num_vars,
{
}

/// Decides the formula with the chosen procedure.
pub fn solve(algorithm: AlgorithmType, num_vars: usize, clauses: &Vec<Clause>) -> (res: SATResult)
    requires
        formula_in_range(formula_of(clauses@), num_vars as nat),
    ensures
        verdict_of(num_vars as nat, formula_of(clauses@), res),
{
    match algorithm {
        AlgorithmType::Simple => simple_algorithm(num_vars, clauses),
        AlgorithmType::DPLL => dpll_algorithm(num_vars, clauses),
        AlgorithmType::CDCL => cdcl_algorithm(num_vars, clauses),
    }
}

/// The literal on variable `index` that is true when the variable has the
/// value `value`.
pub open spec fn true_literal(index: int, value: bool) -> Lit {
    Lit {
        index: index as usize,
        sign: if value {
            Sign::Pos
        } else {
            Sign::Neg
        },
    }
}

/// `line` names, in the order of the variables and with one space between
/// neighbours, the literal of each variable that the model makes true.
pub open spec fn model_line(model: Seq<bool>, line: Seq<char>) -> bool {
    exists|parts: Seq<Seq<char>>|
        #![trigger joined(parts, " "@)]
        parts.len() == model.len() && (forall|v: int|
            0 <= v < model.len() ==> lit_text(true_literal(v, model[v]), #[trigger] parts[v]))
            && line == joined(parts, " "@)
}

/// The model as one line: the signed numbers of its variables, counted
/// from one, positive for a true and negative for a false variable.
pub fn model_to_string(model: &Model) -> (line: String)
    ensures
        model_line(model.assignments@, line@),
{
    let mut line = String::new();
    let ghost mut parts: Seq<Seq<char>> = Seq::empty();
    let mut v: usize = 0;
    while v < model.assignments.len()
        invariant
            v <= model.assignments@.len(),
            parts.len() == v,
            forall|w: int|
                0 <= w < v ==> lit_text(
                    true_literal(w, model.assignments@[w]),
                    #[trigger] parts[w],
                ),
            line@ == joined(parts, " "@),
        decreases model.assignments@.len() - v,
    {
        let sign = if model.assignments[v] {
            Sign::Pos
        } else {
            Sign::Neg
        };
        let part = lit_to_string(&Lit { index: v, sign });
        if v > 0 {
            line.append(" ");
        }
        line.append(part.as_str());
        proof {
            let longer = parts.push(part@);
            assert(longer.drop_last() == parts);
            parts = longer;
        }
        v += 1;
    }
    line
}

/// The lines to print for a result: for `UNSAT` the line that says so; for
/// `SAT` the line that says so and the line of the model.
pub fn result_lines(res: &SATResult) -> (lines: Vec<String>)
    ensures
        match res {
            SATResult::UNSAT => lines@.len() == 1 && lines@[0]@ == "Formula is UNSAT"@,
            SATResult::SAT { model } => lines@.len() == 2 && lines@[0]@ == "Formula is SAT"@
                && model_line(model.assignments@, lines@[1]@),
        },
{
    let mut lines: Vec<String> = Vec::new();
    match res {
        SATResult::UNSAT => {
            lines.push(String::from_str("Formula is UNSAT"));
        },
        SATResult::SAT { model } => {
            lines.push(String::from_str("Formula is SAT"));
            lines.push(model_to_string(model));
        },
    }
    lines
}

} // verus!
