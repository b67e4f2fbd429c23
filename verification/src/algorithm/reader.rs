//! Reading a formula from DIMACS text.
//!
//! The text is parsed by the `dimacs` crate. What comes back is turned into
//! the clauses of this library by verified code.

use vstd::prelude::*;
use crate::algorithm::formula::{clause_in_range, formula_in_range, formula_of};
use crate::algorithm::interface::{Clause, Lit, Sign};

verus! {

/// Why a text could not be read as a formula.
#[derive(Clone, Copy, Debug, PartialEq, Eq, Structural)]
pub enum ReadError {
    /// The text is not well-formed DIMACS.
    ParseError,
    /// The text is a well-formed instance in the `sat` format, which holds
    /// a formula that is not in conjunctive normal form.
    UnsupportedInstance,
    /// The text holds a number of more than 7 digits, more than 256
    /// opening parentheses or more than 1000 comment lines in a row, or a
    /// variable number that does not fit the machine.
    LimitExceeded,
}

/// The error that `dimacs::parse_dimacs` reports, carried through as it is:
/// nothing is claimed of what it holds.
#[verifier::external_type_specification]
#[verifier::external_body]
pub struct ExParseError(dimacs::ParseError);

/// The longest number that a text may hold, in digits.
pub const MAX_DIGITS: usize = 7;

/// The most opening parentheses that a text may hold.
pub const MAX_OPENING: usize = 256;

/// The most lines in a row that may begin a comment.
pub const MAX_COMMENT_LINES: usize = 1000;

/// The character is a blank, a tab or a carriage return.
pub open spec fn is_blank(c: char) -> bool {
    c == ' ' || c == '\t' || c == '\r'
}

/// The character is a printable ASCII character that begins a token which
/// is no comment.
pub open spec fn starts_token(c: char) -> bool {
    '!' <= c && c <= '~' && c != 'c'
}

/// Before position `end`, the line that position `end` lies in holds
/// nothing but blanks.
pub open spec fn line_fresh(text: Seq<char>, end: int) -> bool
    decreases end,
{
    if end <= 0 || end > text.len() {
        true
    } else {
        text[end - 1] == '\n' || (line_fresh(text, end - 1) && is_blank(text[end - 1]))
    }
}

/// A bound on the number of comments that the text before position `end`
/// ends with, nothing but white space between them: the number of lines,
/// blank lines not counted, since the last line that begins with a token
/// which is no comment, and one more.
pub open spec fn comment_run(text: Seq<char>, end: int) -> nat
    decreases end,
{
    if end <= 0 || end > text.len() {
        0
    } else {
        let c = text[end - 1];
        let before = comment_run(text, end - 1);
        if c != '\n' && line_fresh(text, end - 1) && !is_blank(c) {
            if starts_token(c) {
                1
            } else {
                before + 1
            }
        } else {
            before
        }
    }
}

/// The character is a decimal digit.
pub open spec fn is_digit(c: char) -> bool {
    '0' <= c && c <= '9'
}

/// The length of the run of digits that ends just before position `end`.
pub open spec fn digit_run(text: Seq<char>, end: int) -> nat
    decreases end,
{
    if end <= 0 || end > text.len() || !is_digit(text[end - 1]) {
        0
    } else {
        digit_run(text, end - 1) + 1
    }
}

/// The number of opening parentheses before position `end`.
pub open spec fn opening(text: Seq<char>, end: int) -> nat
    decreases end,
{
    if end <= 0 || end > text.len() {
        0
    } else {
        opening(text, end - 1) + if text[end - 1] == '(' {
            1nat
        } else {
            0nat
        }
    }
}

/// The number of opening parentheses does not fall along the text.
pub proof fn lemma_opening_grows(text: Seq<char>, from: int, to: int)
    requires
        0 <= from <= to <= text.len(),
    ensures
        opening(text, from) <= opening(text, to),
    decreases to - from,
{
    if from < to {
        lemma_opening_grows(text, from, to - 1);
    }
}

/// No run of digits in the text is longer than `MAX_DIGITS`, the text
/// holds at most `MAX_OPENING` opening parentheses, and nowhere more than
/// `MAX_COMMENT_LINES` comments follow one another.
pub open spec fn text_within_limits(text: Seq<char>) -> bool {
    &&& forall|end: int| 0 <= end <= text.len() ==> #[trigger] digit_run(text, end) <= MAX_DIGITS
    &&& opening(text, text.len() as int) <= MAX_OPENING
    &&& forall|end: int|
        0 <= end <= text.len() ==> #[trigger] comment_run(text, end) <= MAX_COMMENT_LINES
}

/// What `dimacs::parse_dimacs` makes of a text: `None` where it reports an
/// error; `Some(None)` for an instance in the `sat` format; else the number
/// of variables that the header declares and the clauses, each literal as
/// the number of its variable and whether it is positive.
pub uninterp spec fn dimacs_parse(text: Seq<char>) -> Option<Option<(u64, Seq<Seq<(u64, bool)>>)>>;

/// The clauses of a parsed instance as sequences.
pub open spec fn parsed_clauses(clauses: Seq<Vec<(u64, bool)>>) -> Seq<Seq<(u64, bool)>> {
    Seq::new(clauses.len(), |i: int| clauses[i]@)
}

/// A parsed instance as plain sequences.
pub open spec fn parsed_view(parsed: Option<(u64, Vec<Vec<(u64, bool)>>)>) -> Option<
    (u64, Seq<Seq<(u64, bool)>>),
> {
    match parsed {
        Some((num_vars, clauses)) => Some((num_vars, parsed_clauses(clauses@))),
        None => None,
    }
}

/// Calls `dimacs::parse_dimacs` and hands out what it returns as plain
/// values: for a `cnf` instance the declared number of variables and, for
/// each literal in each clause, what `Lit::var` with `Var::to_u64` and
/// `Lit::sign` give; `None` for a `sat` instance. The contract claims only
/// that the outcome is a function of the text. Texts beyond the limits are
/// left out because the parser computes its numbers in 64 bits without a
/// check, reserves room for as many clauses as the header declares, and
/// descends once for every nested parenthesis and once for every comment
/// that follows another.
#[verifier::external_body]
fn parse_text(text: &str) -> (r: Result<Option<(u64, Vec<Vec<(u64, bool)>>)>, dimacs::ParseError>)
    requires
        text_within_limits(text@),
    ensures
        r is Err <==> dimacs_parse(text@) is None,
        r matches Ok(parsed) ==> dimacs_parse(text@) == Some(parsed_view(parsed)),
{
    Ok(match dimacs::parse_dimacs(text)? {
        dimacs::Instance::Cnf { num_vars, clauses } => Some((
            num_vars,
            clauses.iter().map(|c| c.lits().iter().map(|l| (l.var().to_u64(), matches!(l.sign(), dimacs::Sign::Pos))).collect()).collect(),
        )),
        dimacs::Instance::Sat { .. } => None,
    })
}

/// The variable number names a variable whose index fits the machine.
pub open spec fn readable(var: u64) -> bool {
    1 <= var && var - 1 <= usize::MAX
}

/// The literal on variable number `var` (counted from one).
pub open spec fn lit_of(var: u64, positive: bool) -> Lit {
    Lit {
        index: (var - 1) as usize,
        sign: if positive {
            Sign::Pos
        } else {
            Sign::Neg
        },
    }
}

/// Every variable number of the clause is readable.
pub open spec fn clause_readable(clause: Seq<(u64, bool)>) -> bool {
    forall|j: int| 0 <= j < clause.len() ==> readable((#[trigger] clause[j]).0)
}

/// The number of variables fits the machine and every variable number of
/// every clause is readable.
pub open spec fn instance_readable(num_vars: u64, clauses: Seq<Seq<(u64, bool)>>) -> bool {
    &&& num_vars <= usize::MAX
    &&& forall|i: int| 0 <= i < clauses.len() ==> clause_readable(#[trigger] clauses[i])
}

/// The literals of a parsed clause.
pub open spec fn clause_of(clause: Seq<(u64, bool)>) -> Seq<Lit> {
    Seq::new(clause.len(), |j: int| lit_of(clause[j].0, clause[j].1))
}

/// The clauses of a parsed instance as clauses of literals.
pub open spec fn clauses_of(clauses: Seq<Seq<(u64, bool)>>) -> Seq<Seq<Lit>> {
    Seq::new(clauses.len(), |i: int| clause_of(clauses[i]))
}

/// The literals of a parsed clause, or `None` where a variable number is
/// not readable.
fn clause_from_parsed(clause: &Vec<(u64, bool)>) -> (r: Option<Clause>)
    ensures
        r is Some <==> clause_readable(clause@),
        r matches Some(c) ==> c@ == clause_of(clause@),
{
    let mut lits: Vec<Lit> = Vec::new();
    let mut j: usize = 0;
    while j < clause.len()
        invariant
            j <= clause@.len(),
            lits@.len() == j,
            forall|k: int| 0 <= k < j ==> readable((#[trigger] clause@[k]).0),
            forall|k: int| 0 <= k < j ==> lits@[k] == lit_of(clause@[k].0, clause@[k].1),
        decreases clause@.len() - j,
    {
        let (var, positive) = clause[j];
        if var == 0 || var - 1 > usize::MAX as u64 {
            return None;
        }
        let sign = if positive {
            Sign::Pos
        } else {
            Sign::Neg
        };
        lits.push(Lit { index: (var - 1) as usize, sign });
        j += 1;
    }
    proof {
        assert(lits@ =~= clause_of(clause@));
    }
    Some(Clause { lits })
}

/// Turns a parsed `cnf` instance into the number of variables and the
/// clauses of this library. Refused is an instance whose number of
/// variables, or a variable number in a clause, does not fit the machine or
/// is zero in a clause.
pub fn instance_from_parsed(num_vars: u64, clauses: &Vec<Vec<(u64, bool)>>) -> (r: Result<
    (usize, Vec<Clause>),
    ReadError,
>)
    ensures
        r is Ok <==> instance_readable(num_vars, parsed_clauses(clauses@)),
        r matches Ok((n, formula)) ==> n == num_vars && formula_of(formula@) == clauses_of(
            parsed_clauses(clauses@),
        ),
        r matches Err(e) ==> e == ReadError::LimitExceeded,
{
    if num_vars > usize::MAX as u64 {
        return Err(ReadError::LimitExceeded);
    }
    let ghost parsed = parsed_clauses(clauses@);
    let mut formula: Vec<Clause> = Vec::new();
    let mut i: usize = 0;
    while i < clauses.len()
        invariant
            i <= clauses@.len(),
            parsed == parsed_clauses(clauses@),
            formula@.len() == i,
            forall|k: int| 0 <= k < i ==> clause_readable(#[trigger] parsed[k]),
            forall|k: int| 0 <= k < i ==> (#[trigger] formula@[k])@ == clause_of(parsed[k]),
        decreases clauses@.len() - i,
    {
        proof {
            assert(parsed[i as int] == clauses@[i as int]@);
        }
        match clause_from_parsed(&clauses[i]) {
            Some(clause) => {
                formula.push(clause);
            },
            None => {
                return Err(ReadError::LimitExceeded);
            },
        }
        i += 1;
    }
    proof {
        assert(formula_of(formula@) =~= clauses_of(parsed));
    }
    Ok((num_vars as usize, formula))
}

/// Whether the text keeps within the limits under which it is handed to the
/// parser.
pub fn within_limits(text: &str) -> (ok: bool)
    ensures
        ok == text_within_limits(text@),
{
    let chars = text.chars();
    let mut run: usize = 0;
    let mut opened: usize = 0;
    let mut short = true;
    let mut few = true;
    let mut comments: usize = 0;
    let mut fresh = true;
    let mut calm = true;
    for c in it: chars
        invariant
            it.seq() == text@,
            fresh == line_fresh(text@, it.index()),
            calm ==> comments == comment_run(text@, it.index()),
            calm <==> (forall|end: int|
                0 <= end <= it.index() ==> #[trigger] comment_run(text@, end)
                    <= MAX_COMMENT_LINES),
            short ==> run == digit_run(text@, it.index()),
            short <==> (forall|end: int|
                0 <= end <= it.index() ==> #[trigger] digit_run(text@, end) <= MAX_DIGITS),
            few ==> opened == opening(text@, it.index()),
            few <==> opening(text@, it.index()) <= MAX_OPENING,
    {
        let ghost at = it.index();
        proof {
            assert(c == text@[at]);
            assert(digit_run(text@, at) <= MAX_DIGITS ==> digit_run(text@, at + 1) <= MAX_DIGITS
                + 1);
        }
        if short {
            proof {
                assert(digit_run(text@, at) <= MAX_DIGITS);
            }
            if c >= '0' && c <= '9' {
                run += 1;
                if run > MAX_DIGITS {
                    short = false;
                }
            } else {
                run = 0;
            }
        }
        if few {
            if c == '(' {
                opened += 1;
                if opened > MAX_OPENING {
                    few = false;
                }
            }
        }
        let blank = c == ' ' || c == '\t' || c == '\r';
        let ghost was_calm = calm;
        if calm && c != '\n' && fresh && !blank {
            if c >= '!' && c <= '~' && c != 'c' {
                comments = 1;
            } else {
                comments += 1;
                if comments > MAX_COMMENT_LINES {
                    calm = false;
                }
            }
        }
        fresh = c == '\n' || (fresh && blank);
        proof {
            if short {
                assert forall|end: int| 0 <= end <= at + 1 implies #[trigger] digit_run(text@, end)
                    <= MAX_DIGITS by {
                    if end <= at {
                    }
                }
            }
            if calm {
                assert(comments == comment_run(text@, at + 1));
                assert forall|end: int| 0 <= end <= at + 1 implies #[trigger] comment_run(
                    text@,
                    end,
                ) <= MAX_COMMENT_LINES by {
                    if end <= at {
                    }
                }
            } else if was_calm {
                assert(comment_run(text@, at + 1) > MAX_COMMENT_LINES);
            }
            lemma_opening_grows(text@, at, at + 1);
        }
    }
    short && few && calm
}

/// Reads a formula from DIMACS text: the number of variables that the
/// header declares, and the clauses in the order of the text.
///
/// A text beyond the limits is refused with `LimitExceeded`. Else the text
/// goes to the parser: what the parser refuses is a `ParseError`, an
/// instance in the `sat` format is an `UnsupportedInstance`, and a `cnf`
/// instance is returned unless a number in it does not fit the machine.
pub fn read_file(file: &str) -> (r: Result<(usize, Vec<Clause>), ReadError>)
    ensures
        match r {
            Ok((n, formula)) => text_within_limits(file@) && (dimacs_parse(
                file@,
            ) matches Some(Some((num_vars, clauses))) && instance_readable(num_vars, clauses) && n
                == num_vars && formula_of(formula@) == clauses_of(clauses)),
            Err(ReadError::LimitExceeded) => !text_within_limits(file@) || (dimacs_parse(
                file@,
            ) matches Some(Some((num_vars, clauses))) && !instance_readable(num_vars, clauses)),
            Err(ReadError::ParseError) => text_within_limits(file@) && dimacs_parse(file@) is None,
            Err(ReadError::UnsupportedInstance) => text_within_limits(file@) && dimacs_parse(file@)
                == Some(None::<(u64, Seq<Seq<(u64, bool)>>)>),
        },
{
    if !within_limits(file) {
        return Err(ReadError::LimitExceeded);
    }
    match parse_text(file) {
        Err(_) => Err(ReadError::ParseError),
        Ok(None) => Err(ReadError::UnsupportedInstance),
        Ok(Some((num_vars, clauses))) => instance_from_parsed(num_vars, &clauses),
    }
}

/// Whether every literal of the clauses is on a variable below `num_vars`.
pub fn clauses_in_range(num_vars: usize, clauses: &Vec<Clause>) -> (ok: bool)
    ensures
        ok == formula_in_range(formula_of(clauses@), num_vars as nat),
{
    let ghost formula = formula_of(clauses@);
    let mut i: usize = 0;
    while i < clauses.len()
        invariant
            i <= clauses@.len(),
            formula == formula_of(clauses@),
            forall|k: int| 0 <= k < i ==> clause_in_range(#[trigger] formula[k], num_vars as nat),
        decreases clauses@.len() - i,
    {
        let clause = &clauses[i];
        proof {
            assert(formula[i as int] == clause@);
        }
        let mut j: usize = 0;
        while j < clause.lits.len()
            invariant
                j <= clause@.len(),
                i < formula.len(),
                formula[i as int] == clause@,
                formula == formula_of(clauses@),
                forall|k: int| 0 <= k < j ==> (#[trigger] clause@[k]).index < num_vars,
            decreases clause@.len() - j,
        {
            if clause.lits[j].index >= num_vars {
                proof {
                    assert(clause@[j as int].index >= num_vars);
                    assert(!clause_in_range(formula[i as int], num_vars as nat));
                }
                return false;
            }
            j += 1;
        }
        i += 1;
    }
    true
}

} // verus!
