//! Clauses as DIMACS text, and the shrinking of a clause list that keeps a
//! test passing.

use vstd::prelude::*;
use vstd::string::{to_string_from_display_ensures, StringExecFns};
use crate::algorithm::formula::formula_of;
use crate::algorithm::interface::{Clause, Lit, Sign};

verus! {

/// `text` is the decimal numeral of `number`.
pub open spec fn numeral(number: u128, text: Seq<char>) -> bool {
    exists|s: String| to_string_from_display_ensures::<u128>(&number, s) && s@ == text
}

/// `text` names the literal as DIMACS text does: the numeral of the number
/// of its variable, counted from one, with a minus sign before it when the
/// literal is negative.
pub open spec fn lit_text(lit: Lit, text: Seq<char>) -> bool {
    exists|digits: Seq<char>| #[trigger]
        numeral((lit.index + 1) as u128, digits) && text == if lit.sign == Sign::Pos {
            digits
        } else {
            "-"@ + digits
        }
}

/// The texts joined, with `separator` between neighbours.
pub open spec fn joined(parts: Seq<Seq<char>>, separator: Seq<char>) -> Seq<char>
    decreases parts.len(),
{
    if parts.len() == 0 {
        Seq::empty()
    } else if parts.len() == 1 {
        parts[0]
    } else {
        joined(parts.drop_last(), separator) + separator + parts.last()
    }
}

/// `parts` names the literals of the clause, one by one.
pub open spec fn lit_texts(clause: Seq<Lit>, parts: Seq<Seq<char>>) -> bool {
    parts.len() == clause.len() && forall|j: int|
        0 <= j < clause.len() ==> lit_text(clause[j], #[trigger] parts[j])
}

/// `line` is the clause as a line of DIMACS text: the names of its
/// literals and a closing `0`, with one space between neighbours.
pub open spec fn clause_line(clause: Seq<Lit>, line: Seq<char>) -> bool {
    exists|parts: Seq<Seq<char>>| #[trigger]
        lit_texts(clause, parts) && line == joined(parts.push("0"@), " "@)
}

/// The name of a literal in DIMACS text.
pub fn lit_to_string(lit: &Lit) -> (s: String)
    ensures
        lit_text(*lit, s@),
{
    let number: u128 = lit.index as u128 + 1;
    let digits = number.to_string();
    proof {
        assert(numeral((lit.index + 1) as u128, digits@));
    }
    match lit.sign {
        Sign::Pos => digits,
        Sign::Neg => String::from_str("-").concat(digits.as_str()),
    }
}

/// The clause as a line of DIMACS text.
pub fn clause_to_string(clause: &Clause) -> (line: String)
    ensures
        clause_line(clause@, line@),
{
    let mut line = String::new();
    let ghost mut parts: Seq<Seq<char>> = Seq::empty();
    let mut j: usize = 0;
    while j < clause.lits.len()
        invariant
            j <= clause@.len(),
            lit_texts(clause@.take(j as int), parts),
            line@ == joined(parts, " "@),
        decreases clause@.len() - j,
    {
        let part = lit_to_string(&clause.lits[j]);
        if j > 0 {
            line.append(" ");
        }
        line.append(part.as_str());
        proof {
            let longer = parts.push(part@);
            assert(longer.drop_last() == parts);
            assert(lit_texts(clause@.take(j as int + 1), longer)) by {
                assert forall|k: int| 0 <= k < j + 1 implies lit_text(
                    clause@.take(j as int + 1)[k],
                    #[trigger] longer[k],
                ) by {
                    if k < j {
                        assert(lit_text(clause@.take(j as int)[k], parts[k]));
                    }
                }
            }
            parts = longer;
        }
        j += 1;
    }
    if j > 0 {
        line.append(" ");
    }
    line.append("0");
    proof {
        assert(clause@.take(clause@.len() as int) == clause@);
        assert(parts.push("0"@).drop_last() == parts);
        assert(lit_texts(clause@, parts));
    }
    line
}

/// The highest variable number, counted from one, among the literals of
/// the first `upto` clauses; zero where they hold no literal.
pub open spec fn highest_var(formula: Seq<Seq<Lit>>, upto: int) -> nat
    decreases upto,
{
    if upto <= 0 || upto > formula.len() {
        0
    } else {
        let below = highest_var(formula, upto - 1);
        let here = highest_in(formula[upto - 1], formula[upto - 1].len() as int);
        if here > below {
            here
        } else {
            below
        }
    }
}

/// The highest variable number, counted from one, among the first `upto`
/// literals of the clause; zero where there is none.
pub open spec fn highest_in(clause: Seq<Lit>, upto: int) -> nat
    decreases upto,
{
    if upto <= 0 || upto > clause.len() {
        0
    } else {
        let below = highest_in(clause, upto - 1);
        let here = (clause[upto - 1].index + 1) as nat;
        if here > below {
            here
        } else {
            below
        }
    }
}

/// `lines` holds the line of each clause.
pub open spec fn clause_lines(formula: Seq<Seq<Lit>>, lines: Seq<Seq<char>>) -> bool {
    lines.len() == formula.len() && forall|i: int|
        0 <= i < formula.len() ==> clause_line(formula[i], #[trigger] lines[i])
}

/// `text` is the formula as a DIMACS file: the header with the highest
/// variable number and the number of clauses, then one line for each
/// clause.
pub open spec fn cnf_file(formula: Seq<Seq<Lit>>, text: Seq<char>) -> bool {
    exists|vars: Seq<char>, count: Seq<char>, lines: Seq<Seq<char>>|
        #![trigger numeral(formula.len() as u128, count), clause_lines(formula, lines), numeral(highest_var(formula, formula.len() as int) as u128, vars)]
        numeral(highest_var(formula, formula.len() as int) as u128, vars) && numeral(
            formula.len() as u128,
            count,
        ) && clause_lines(formula, lines) && text == joined(
            seq!["p cnf "@ + vars + " "@ + count] + lines,
            "\n"@,
        )
}

/// The highest variable number among the literals of the clause.
fn highest_var_in(clause: &Clause) -> (highest: u128)
    ensures
        highest == highest_in(clause@, clause@.len() as int),
{
    let mut highest: u128 = 0;
    let mut j: usize = 0;
    while j < clause.lits.len()
        invariant
            j <= clause@.len(),
            highest == highest_in(clause@, j as int),
            highest <= usize::MAX + 1,
        decreases clause@.len() - j,
    {
        let here: u128 = clause.lits[j].index as u128 + 1;
        if here > highest {
            highest = here;
        }
        j += 1;
    }
    highest
}

/// The formula as the text of a DIMACS file, or `None` where no clause
/// holds a literal, so that the header would have no variable to name.
pub fn cnf_text(clauses: &Vec<Clause>) -> (r: Option<String>)
    ensures
        r is Some <==> highest_var(formula_of(clauses@), clauses@.len() as int) > 0,
        r matches Some(text) ==> cnf_file(formula_of(clauses@), text@),
{
    let ghost formula = formula_of(clauses@);
    let mut highest: u128 = 0;
    let mut i: usize = 0;
    while i < clauses.len()
        invariant
            i <= clauses@.len(),
            formula == formula_of(clauses@),
            highest == highest_var(formula, i as int),
        decreases clauses@.len() - i,
    {
        let here = highest_var_in(&clauses[i]);
        if here > highest {
            highest = here;
        }
        i += 1;
    }
    if highest == 0 {
        return None;
    }
    let vars = highest.to_string();
    let count = (clauses.len() as u128).to_string();
    let mut text = String::from_str("p cnf ");
    text.append(vars.as_str());
    text.append(" ");
    text.append(count.as_str());
    let ghost header = text@;
    let ghost mut lines: Seq<Seq<char>> = Seq::empty();
    let mut k: usize = 0;
    while k < clauses.len()
        invariant
            k <= clauses@.len(),
            formula == formula_of(clauses@),
            clause_lines(formula.take(k as int), lines),
            text@ == joined(seq![header] + lines, "\n"@),
        decreases clauses@.len() - k,
    {
        let line = clause_to_string(&clauses[k]);
        text.append("\n");
        text.append(line.as_str());
        proof {
            let longer = lines.push(line@);
            assert((seq![header] + longer).drop_last() == seq![header] + lines);
            assert((seq![header] + longer).last() == line@);
            assert(clause_lines(formula.take(k as int + 1), longer)) by {
                assert forall|i: int| 0 <= i < k + 1 implies clause_line(
                    formula.take(k as int + 1)[i],
                    #[trigger] longer[i],
                ) by {
                    if i < k {
                        assert(clause_line(formula.take(k as int)[i], lines[i]));
                    }
                }
            }
            lines = longer;
        }
        k += 1;
    }
    proof {
        assert(formula.take(clauses@.len() as int) == formula);
        assert(numeral(highest_var(formula, formula.len() as int) as u128, vars@));
        assert(numeral(formula.len() as u128, count@));
    }
    Some(text)
}

/// `pos` gives, for each element of `part`, its place in `whole`, and the
/// places rise.
pub open spec fn embeds(pos: Seq<int>, part: Seq<Seq<Lit>>, whole: Seq<Seq<Lit>>) -> bool {
    &&& pos.len() == part.len()
    &&& forall|i: int|
        0 <= i < part.len() ==> 0 <= #[trigger] pos[i] < whole.len() && part[i] == whole[pos[i]]
    &&& forall|i: int, j: int| 0 <= i < j < part.len() ==> #[trigger] pos[i] < #[trigger] pos[j]
}

/// `part` can be had from `whole` by leaving clauses out.
pub open spec fn sublist(part: Seq<Seq<Lit>>, whole: Seq<Seq<Lit>>) -> bool {
    exists|pos: Seq<int>| embeds(pos, part, whole)
}

/// A list is a sublist of itself.
pub proof fn lemma_sublist_itself(whole: Seq<Seq<Lit>>)
    ensures
        sublist(whole, whole),
{
    assert(embeds(Seq::new(whole.len(), |i: int| i), whole, whole));
}

/// A sublist of a sublist is a sublist.
pub proof fn lemma_sublist_chain(a: Seq<Seq<Lit>>, b: Seq<Seq<Lit>>, c: Seq<Seq<Lit>>)
    requires
        sublist(a, b),
        sublist(b, c),
    ensures
        sublist(a, c),
{
    let p = choose|pos: Seq<int>| embeds(pos, a, b);
    let q = choose|pos: Seq<int>| embeds(pos, b, c);
    let pq = Seq::new(a.len(), |i: int| q[p[i]]);
    assert(embeds(pq, a, c));
}

/// A list without the clauses from `start` up to `end` is a sublist.
pub proof fn lemma_without_sublist(whole: Seq<Seq<Lit>>, start: int, end: int)
    requires
        0 <= start <= end <= whole.len(),
    ensures
        sublist(whole.take(start) + whole.skip(end), whole),
{
    let part = whole.take(start) + whole.skip(end);
    let pos = Seq::new(
        part.len(),
        |i: int|
            if i < start {
                i
            } else {
                i + (end - start)
            },
    );
    assert(embeds(pos, part, whole));
}

/// The clauses of the list but for those from `start` up to `end`.
fn without(input: &Vec<Clause>, start: usize, end: usize) -> (rest: Vec<Clause>)
    requires
        start <= end <= input@.len(),
    ensures
        formula_of(rest@) == formula_of(input@).take(start as int) + formula_of(input@).skip(
            end as int,
        ),
        rest@.len() == input@.len() - (end - start),
{
    let ghost formula = formula_of(input@);
    let mut rest: Vec<Clause> = Vec::new();
    let mut j: usize = 0;
    while j < start
        invariant
            j <= start <= end <= input@.len(),
            formula == formula_of(input@),
            formula_of(rest@) == formula.take(j as int),
        decreases start - j,
    {
        let copy = input[j].clone();
        let ghost before = rest@;
        rest.push(copy);
        proof {
            assert(formula_of(rest@) =~= formula_of(before).push(copy@));
            assert(formula.take(j as int + 1) =~= formula.take(j as int).push(formula[j as int]));
        }
        j += 1;
    }
    let mut k: usize = end;
    while k < input.len()
        invariant
            start <= end <= k <= input@.len(),
            formula == formula_of(input@),
            formula_of(rest@) == formula.take(start as int) + formula.subrange(
                end as int,
                k as int,
            ),
        decreases input@.len() - k,
    {
        let copy = input[k].clone();
        let ghost before = rest@;
        rest.push(copy);
        proof {
            assert(formula_of(rest@) =~= formula_of(before).push(copy@));
            assert(formula.subrange(end as int, k as int + 1) =~= formula.subrange(
                end as int,
                k as int,
            ).push(formula[k as int]));
        }
        k += 1;
    }
    proof {
        assert(formula.subrange(end as int, input@.len() as int) =~= formula.skip(end as int));
        assert(formula_of(rest@).len() == rest@.len());
    }
    rest
}

/// The length of the blocks into which a list of `len` clauses is cut when
/// it is cut into `n` blocks: the `n`th part of `len`, rounded up.
pub open spec fn block_size(len: nat, n: nat) -> nat {
    if n == 0 {
        len
    } else if len % n != 0 {
        len / n + 1
    } else {
        len / n
    }
}

/// The test has failed on a list that holds the clauses of `formula` but
/// for block `k`, where the blocks have the length `size`.
pub open spec fn block_needed<F: Fn(&Vec<Clause>) -> bool>(
    test: F,
    formula: Seq<Seq<Lit>>,
    size: nat,
    k: int,
) -> bool {
    let start = k * size;
    let end = if start + size < formula.len() {
        start + size
    } else {
        formula.len() as int
    };
    exists|list: Vec<Clause>|
        formula_of(list@) == formula.take(start) + formula.skip(end) && #[trigger] call_ensures(
            test,
            (&list,),
            false,
        )
}

/// The test has failed on the list without any one of its `n` blocks, and
/// the same holds with twice as many blocks, and so on while the number of
/// blocks is at most half the length of the list.
pub open spec fn every_block_needed<F: Fn(&Vec<Clause>) -> bool>(
    test: F,
    formula: Seq<Seq<Lit>>,
    n: nat,
) -> bool
    decreases
        (if 0 < n <= formula.len() {
            formula.len() - n
        } else {
            0
        }),
{
    if n == 0 || n > formula.len() {
        true
    } else {
        let size = block_size(formula.len(), n);
        &&& forall|k: int| 0 <= k && k * size < formula.len() ==> #[trigger] block_needed(test, formula, size, k)
        &&& (n <= formula.len() / 2 ==> every_block_needed(test, formula, 2 * n))
    }
}

/// Where blocks of a length above zero are counted, a block that begins
/// before the block `upto` begins has a lower number.
pub proof fn lemma_block_number(k: int, upto: int, size: nat)
    requires
        size > 0,
        k * size < upto * size,
    ensures
        k < upto,
{
    assert(k < upto) by (nonlinear_arith)
        requires
            size > 0,
            k * size < upto * size,
    ;
}

/// Shrinks the list with blocks of about an `n`th of its length: the first
/// block without which the rest passes the test is left out, and the rest
/// is shrunk on with halves. When every block is needed, the blocks are
/// halved; blocks that cannot be halved end the shrinking.
fn delta_debug_recursive<F: Fn(&Vec<Clause>) -> bool>(input: Vec<Clause>, test: F, n: usize) -> (r:
    Vec<Clause>)
    requires
        n > 0,
        forall|list: &Vec<Clause>| call_requires(test, (list,)),
    ensures
        sublist(formula_of(r@), formula_of(input@)),
        r == input || call_ensures(test, (&r,), true),
        r@.len() <= input@.len(),
        r@.len() == input@.len() ==> r == input && every_block_needed(
            test,
            formula_of(input@),
            n as nat,
        ),
    decreases input@.len(), (if n <= input@.len() {
            input@.len() - n
        } else {
            0
        }),
{
    let len = input.len();
    let ghost formula = formula_of(input@);
    proof {
        lemma_sublist_itself(formula);
        assert(formula.len() == len);
    }
    if len == 0 || n > len {
        return input;
    }
    let whole_chunks = len / n;
    proof {
        assert(whole_chunks >= 1 && whole_chunks * n <= len) by (nonlinear_arith)
            requires
                0 < n <= len,
                whole_chunks == len / n,
        ;
        if len % n != 0 {
            assert(n >= 2);
            assert(2 * whole_chunks <= whole_chunks * n) by (nonlinear_arith)
                requires
                    n >= 2,
                    whole_chunks >= 0,
            ;
        }
    }
    let chunk_size = if len % n != 0 {
        whole_chunks + 1
    } else {
        whole_chunks
    };
    let mut start: usize = 0;
    let ghost mut block: int = 0;
    while start < len
        invariant
            len == input@.len(),
            formula == formula_of(input@),
            formula.len() == len,
            chunk_size >= 1,
            chunk_size == block_size(len as nat, n as nat),
            n > 0,
            n <= len,
            forall|list: &Vec<Clause>| call_requires(test, (list,)),
            0 <= block,
            start <= len,
            start == len || start == block * chunk_size,
            start == len ==> block * chunk_size >= len,
            forall|k: int| 0 <= k < block ==> #[trigger] block_needed(test, formula, chunk_size as nat, k),
        decreases len - start,
    {
        let end = if len - start < chunk_size {
            len
        } else {
            start + chunk_size
        };
        let complement = without(&input, start, end);
        proof {
            lemma_without_sublist(formula, start as int, end as int);
        }
        if test(&complement) {
            let ghost tested = complement;
            let r = delta_debug_recursive(complement, test, 2);
            proof {
                lemma_sublist_chain(formula_of(r@), formula_of(tested@), formula);
            }
            return r;
        }
        proof {
            assert(block_needed(test, formula, chunk_size as nat, block)) by {
                assert(call_ensures(test, (&complement,), false));
            }
            assert((block + 1) * chunk_size == block * chunk_size + chunk_size) by (nonlinear_arith);
            block = block + 1;
        }
        start = end;
    }
    proof {
        assert forall|k: int| 0 <= k && k * chunk_size < len implies #[trigger] block_needed(
            test,
            formula,
            chunk_size as nat,
            k,
        ) by {
            lemma_block_number(k, block, chunk_size as nat);
        }
    }
    if n <= len / 2 {
        return delta_debug_recursive(input, test, n * 2);
    }
    input
}

/// Shrinks a list of clauses while a test keeps passing.
///
/// The result holds clauses of the list, in their order. It is the list
/// itself, or it is shorter and the test has passed on it. Where it is the
/// list itself, the test has failed on the list without any one of its two
/// halves, of its four quarters, and so on, as long as the list holds at
/// least twice as many clauses as it is cut into blocks.
pub fn delta_debug<F: Fn(&Vec<Clause>) -> bool>(input: Vec<Clause>, test: F) -> (r: Vec<Clause>)
    requires
        forall|list: &Vec<Clause>| call_requires(test, (list,)),
    ensures
        sublist(formula_of(r@), formula_of(input@)),
        r == input || (r@.len() < input@.len() && call_ensures(test, (&r,), true)),
        r == input ==> every_block_needed(test, formula_of(input@), 2),
{
    delta_debug_recursive(input, test, 2)
}

} // verus!
