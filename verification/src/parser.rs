use vstd::prelude::*;
use vstd::string::StringSliceAdditionalSpecFns;
use crate::aexp::AExp;
use crate::ast::{AtomView, Prog, ProgAtom};
use crate::bexp::BExp;
use crate::common::VarName;
use crate::grammar::{aexp_at, assignment_at, at, bexp_at, closing, comparison_at, conditional_at, digits, factor_at,
    gap, is_digit, keyword, letters, literal_at, loop_at, name_at, number, op_and, op_assign,
    op_le, op_or, op_plus, op_semi, op_times, opening, operator, product_at, product_rest, program_at,
    program_rest, spaced_word, spaces, statement_at, sum_at, sum_rest, word_do, word_else, word_end, word_if,
    word_skip, word_then, word_while, ParseErrorView, blanks, blanks_before, is_blank, is_blank2, is_blank3, parsed, trim, white_at,
    white_before,
    uncomment};
use vstd::string::StringExecFns;
use vstd::utf8::{decode_utf8, valid_utf8};

verus! {

/// Whether what was read from position `i` of a text of `len` bytes is
/// what the grammar says stands there: the same value, ending at the
/// same position, after `i` and within the text, or nothing in both.
pub open spec fn reads<T: View>(r: Option<(T, usize)>, expected: Option<(T::V, int)>, i: usize, len: nat) -> bool {
    match r {
        Some((v, j)) => expected == Some((v@, j as int)) && i < j <= len,
        None => expected is None,
    }
}

/// Whether the position that was read from position `i` is the one that
/// the grammar gives.
pub open spec fn reaches(r: Option<usize>, expected: Option<int>, i: usize, len: nat) -> bool {
    match r {
        Some(j) => expected == Some(j as int) && i < j <= len,
        None => expected is None,
    }
}

/// The number of blanks from position `i` on.
fn count_spaces(s: &[u8], i: usize) -> (n: usize)
    requires
        i <= s.len(),
    ensures
        n == spaces(s@, i as int),
        i + n <= s.len(),
{
    let mut n: usize = 0;
    while i + n < s.len() && (s[i + n] == 32 || s[i + n] == 9 || s[i + n] == 10 || s[i + n] == 13)
        invariant
            i + n <= s.len(),
            spaces(s@, i as int) == n + spaces(s@, i + n),
        decreases s.len() - i - n,
    {
        n += 1;
    }
    n
}

/// The number of letters from position `i` on.
fn count_letters(s: &[u8], i: usize) -> (n: usize)
    requires
        i <= s.len(),
    ensures
        n == letters(s@, i as int),
        i + n <= s.len(),
{
    let mut n: usize = 0;
    while i + n < s.len() && ((65 <= s[i + n] && s[i + n] <= 90) || (97 <= s[i + n] && s[i + n] <= 122))
        invariant
            i + n <= s.len(),
            letters(s@, i as int) == n + letters(s@, i + n),
        decreases s.len() - i - n,
    {
        n += 1;
    }
    n
}

/// The number of digits from position `i` on.
fn count_digits(s: &[u8], i: usize) -> (n: usize)
    requires
        i <= s.len(),
    ensures
        n == digits(s@, i as int),
        i + n <= s.len(),
        forall|k: int| 0 <= k < n ==> is_digit(#[trigger] s@[i + k]),
{
    let mut n: usize = 0;
    while i + n < s.len() && 48 <= s[i + n] && s[i + n] <= 57
        invariant
            i + n <= s.len(),
            digits(s@, i as int) == n + digits(s@, i + n),
            forall|k: int| 0 <= k < n ==> is_digit(#[trigger] s@[i + k]),
        decreases s.len() - i - n,
    {
        n += 1;
    }
    n
}

/// Whether the bytes `word` stand at position `i`.
fn word_at(s: &[u8], i: usize, word: &[u8]) -> (r: bool)
    requires
        i <= s.len(),
    ensures
        r == at(s@, i as int, word@),
{
    reveal(at);
    if word.len() > s.len() - i {
        return false;
    }
    let mut k: usize = 0;
    while k < word.len()
        invariant
            k <= word.len(),
            i + word.len() <= s.len(),
            forall|j: int| 0 <= j < k ==> s@[i + j] == word@[j],
        decreases word.len() - k,
    {
        if s[i + k] != word[k] {
            proof {
                reveal(at);
                assert(s@.subrange(i as int, i + word.len())[k as int] == s@[i + k]);
            }
            return false;
        }
        k += 1;
    }
    proof {
        reveal(at);
        assert(s@.subrange(i as int, i + word.len()) =~= word@);
    }
    true
}

/// The position after the word `word` at position `i`.
fn read_keyword(s: &[u8], i: usize, word: &[u8]) -> (r: Option<usize>)
    requires
        i <= s.len(),
        word@.len() > 0,
    ensures
        reaches(r, keyword(s@, i as int, word@), i, s@.len()),
{
    reveal(at);
    if !word_at(s, i, word) {
        return None;
    }
    let j = i + word.len();
    if j < s.len() {
        let b = s[j];
        if (65 <= b && b <= 90) || (97 <= b && b <= 122) || (48 <= b && b <= 57) {
            return None;
        }
    }
    Some(j)
}

/// The position after the operator `word` and the blanks around it.
fn read_operator(s: &[u8], i: usize, word: &[u8]) -> (r: Option<usize>)
    requires
        i <= s.len(),
        word@.len() > 0,
    ensures
        reaches(r, operator(s@, i as int, word@), i, s@.len()),
{
    reveal(at);
    let j = i + count_spaces(s, i);
    if !word_at(s, j, word) {
        return None;
    }
    let k = j + word.len();
    Some(k + count_spaces(s, k))
}

/// The position after the blanks at position `i`.
fn read_gap(s: &[u8], i: usize) -> (r: Option<usize>)
    requires
        i <= s.len(),
    ensures
        reaches(r, gap(s@, i as int), i, s@.len()),
{
    let n = count_spaces(s, i);
    if n > 0 {
        Some(i + n)
    } else {
        None
    }
}

/// The position after the word `word` and the blanks around it.
fn read_spaced_word(s: &[u8], i: usize, word: &[u8]) -> (r: Option<usize>)
    requires
        i <= s.len(),
        word@.len() > 0,
    ensures
        reaches(r, spaced_word(s@, i as int, word@), i, s@.len()),
{
    match read_gap(s, i) {
        Some(j) => match read_keyword(s, j, word) {
            Some(k) => read_gap(s, k),
            None => None,
        },
        None => None,
    }
}

/// The position after the word `word` and the blanks after it.
fn read_opening(s: &[u8], i: usize, word: &[u8]) -> (r: Option<usize>)
    requires
        i <= s.len(),
        word@.len() > 0,
    ensures
        reaches(r, opening(s@, i as int, word@), i, s@.len()),
{
    match read_keyword(s, i, word) {
        Some(j) => read_gap(s, j),
        None => None,
    }
}

/// The position after the blanks at position `i` and the word `end`.
fn read_closing(s: &[u8], i: usize) -> (r: Option<usize>)
    requires
        i <= s.len(),
    ensures
        reaches(r, closing(s@, i as int), i, s@.len()),
{
    let word = bytes_end();
    match read_gap(s, i) {
        Some(j) => read_keyword(s, j, word.as_slice()),
        None => None,
    }
}

fn bytes_skip() -> (w: Vec<u8>)
    ensures
        w@ == word_skip(),
{
    let w = vec![115u8, 107u8, 105u8, 112u8];
    assert(w@ =~= word_skip());
    w
}

fn bytes_if() -> (w: Vec<u8>)
    ensures
        w@ == word_if(),
{
    let w = vec![105u8, 102u8];
    assert(w@ =~= word_if());
    w
}

fn bytes_then() -> (w: Vec<u8>)
    ensures
        w@ == word_then(),
{
    let w = vec![116u8, 104u8, 101u8, 110u8];
    assert(w@ =~= word_then());
    w
}

fn bytes_else() -> (w: Vec<u8>)
    ensures
        w@ == word_else(),
{
    let w = vec![101u8, 108u8, 115u8, 101u8];
    assert(w@ =~= word_else());
    w
}

fn bytes_end() -> (w: Vec<u8>)
    ensures
        w@ == word_end(),
{
    let w = vec![101u8, 110u8, 100u8];
    assert(w@ =~= word_end());
    w
}

fn bytes_while() -> (w: Vec<u8>)
    ensures
        w@ == word_while(),
{
    let w = vec![119u8, 104u8, 105u8, 108u8, 101u8];
    assert(w@ =~= word_while());
    w
}

fn bytes_do() -> (w: Vec<u8>)
    ensures
        w@ == word_do(),
{
    let w = vec![100u8, 111u8];
    assert(w@ =~= word_do());
    w
}

fn bytes_assign() -> (w: Vec<u8>)
    ensures
        w@ == op_assign(),
{
    let w = vec![58u8, 61u8];
    assert(w@ =~= op_assign());
    w
}

fn bytes_le() -> (w: Vec<u8>)
    ensures
        w@ == op_le(),
{
    let w = vec![60u8, 61u8];
    assert(w@ =~= op_le());
    w
}

fn bytes_and() -> (w: Vec<u8>)
    ensures
        w@ == op_and(),
{
    let w = vec![38u8, 38u8];
    assert(w@ =~= op_and());
    w
}

fn bytes_or() -> (w: Vec<u8>)
    ensures
        w@ == op_or(),
{
    let w = vec![124u8, 124u8];
    assert(w@ =~= op_or());
    w
}

fn bytes_plus() -> (w: Vec<u8>)
    ensures
        w@ == op_plus(),
{
    let w = vec![43u8];
    assert(w@ =~= op_plus());
    w
}

fn bytes_times() -> (w: Vec<u8>)
    ensures
        w@ == op_times(),
{
    let w = vec![42u8];
    assert(w@ =~= op_times());
    w
}

fn bytes_semi() -> (w: Vec<u8>)
    ensures
        w@ == op_semi(),
{
    let w = vec![59u8];
    assert(w@ =~= op_semi());
    w
}

/// A run of digits stands for a number that grows with its length.
proof fn lemma_number_grows(s: Seq<u8>, i: int, k: nat, n: nat)
    requires
        k <= n,
        forall|j: int| 0 <= j < n ==> is_digit(#[trigger] s[i + j]),
    ensures
        number(s, i, k) <= number(s, i, n),
    decreases n - k,
{
    if k < n {
        lemma_number_grows(s, i, k + 1, n);
        assert(is_digit(s[i + k]));
        assert(number(s, i, k + 1) == number(s, i, k) * 10 + (s[i + k] - 48));
    }
}

/// The literal at position `i`.
#[verifier::rlimit(50)]
#[verifier::spinoff_prover]
fn read_literal(s: &[u8], i: usize, negative: bool) -> (r: Option<(AExp, usize)>)
    requires
        i <= s.len(),
    ensures
        reads(r, literal_at(s@, i as int, negative), i, s@.len()),
{
    let n = count_digits(s, i);
    if n == 0 {
        return None;
    }
    let cap: u64 = if negative {
        0x8000_0000
    } else {
        0x7fff_ffff
    };
    let mut v: u64 = 0;
    let mut k: usize = 0;
    while k < n
        invariant
            k <= n,
            0 < n == digits(s@, i as int),
            i + n <= s.len(),
            v == number(s@, i as int, k as nat),
            v <= cap,
            cap == if negative {
                0x8000_0000u64
            } else {
                0x7fff_ffffu64
            },
            forall|j: int| 0 <= j < n ==> is_digit(#[trigger] s@[i + j]),
        decreases n - k,
    {
        assert(is_digit(s@[i + k]));
        let d: u64 = (s[i + k] - 48) as u64;
        let next = v * 10 + d;
        proof {
            assert(number(s@, i as int, (k + 1) as nat) == next);
        }
        if next > cap {
            proof {
                lemma_number_grows(s@, i as int, (k + 1) as nat, n as nat);
            }
            return None;
        }
        v = next;
        k += 1;
    }
    let value: i32 = if negative {
        (-(v as i64)) as i32
    } else {
        v as i32
    };
    Some((AExp::Num(value), i + n))
}

/// The name that the `n` letters from position `i` on spell.
fn read_name(s: &[u8], i: usize, n: usize) -> (r: VarName)
    requires
        i + n <= s.len(),
    ensures
        r@ == name_at(s@, i as int, n as nat),
{
    let mut name = String::new();
    let mut k: usize = 0;
    while k < n
        invariant
            k <= n,
            i + n <= s.len(),
            name@ == name_at(s@, i as int, k as nat),
        decreases n - k,
    {
        name.push(s[i + k] as char);
        proof {
            assert(name@ =~= name_at(s@, i as int, (k + 1) as nat));
        }
        k += 1;
    }
    VarName(name)
}

/// The arithmetic expression at position `i` and the position after it.
#[verifier::rlimit(50)]
#[verifier::spinoff_prover]
pub fn parse_aexp(s: &[u8], i: usize) -> (r: Option<(AExp, usize)>)
    requires
        i <= s.len(),
    ensures
        reads(r, aexp_at(s@, i as int), i, s@.len()),
    decreases s.len() - i, 5int,
{
    if i < s.len() && s[i] == 45 {
        match read_literal(s, i + 1, true) {
            Some(r) => {
                return Some(r);
            },
            None => {},
        }
    }
    parse_sum(s, i)
}

/// The sum at position `i`.
#[verifier::rlimit(50)]
#[verifier::spinoff_prover]
fn parse_sum(s: &[u8], i: usize) -> (r: Option<(AExp, usize)>)
    requires
        i <= s.len(),
    ensures
        reads(r, sum_at(s@, i as int), i, s@.len()),
    decreases s.len() - i, 4int,
{
    let plus = bytes_plus();
    match parse_product(s, i) {
        None => None,
        Some((a, j0)) => {
            let mut acc = a;
            let mut j = j0;
            loop
                invariant
                    i < j <= s.len(),
                    plus@ == op_plus(),
                    sum_rest(s@, j as int, acc@) == sum_at(s@, i as int),
                decreases s.len() - j,
            {
                match read_operator(s, j, plus.as_slice()) {
                    None => {
                        return Some((acc, j));
                    },
                    Some(k) => match parse_product(s, k) {
                        None => {
                            return Some((acc, j));
                        },
                        Some((b, m)) => {
                            acc = AExp::Add(Box::new(acc), Box::new(b));
                            j = m;
                        },
                    },
                }
            }
        },
    }
}

/// The product at position `i`.
#[verifier::rlimit(50)]
#[verifier::spinoff_prover]
fn parse_product(s: &[u8], i: usize) -> (r: Option<(AExp, usize)>)
    requires
        i <= s.len(),
    ensures
        reads(r, product_at(s@, i as int), i, s@.len()),
    decreases s.len() - i, 3int,
{
    let times = bytes_times();
    match parse_factor(s, i) {
        None => None,
        Some((a, j0)) => {
            let mut acc = a;
            let mut j = j0;
            loop
                invariant
                    i < j <= s.len(),
                    times@ == op_times(),
                    product_rest(s@, j as int, acc@) == product_at(s@, i as int),
                decreases s.len() - j,
            {
                match read_operator(s, j, times.as_slice()) {
                    None => {
                        return Some((acc, j));
                    },
                    Some(k) => match parse_factor(s, k) {
                        None => {
                            return Some((acc, j));
                        },
                        Some((b, m)) => {
                            acc = AExp::Mul(Box::new(acc), Box::new(b));
                            j = m;
                        },
                    },
                }
            }
        },
    }
}

/// The factor at position `i`.
#[verifier::rlimit(50)]
#[verifier::spinoff_prover]
fn parse_factor(s: &[u8], i: usize) -> (r: Option<(AExp, usize)>)
    requires
        i <= s.len(),
    ensures
        reads(r, factor_at(s@, i as int), i, s@.len()),
    decreases s.len() - i, 2int,
{
    if count_digits(s, i) > 0 {
        return read_literal(s, i, false);
    }
    let n = count_letters(s, i);
    if n > 0 {
        return Some((AExp::Var(read_name(s, i, n)), i + n));
    }
    if i < s.len() && s[i] == 40 {
        let j = i + 1 + count_spaces(s, i + 1);
        match parse_aexp(s, j) {
            Some((a, k)) => {
                let m = k + count_spaces(s, k);
                if m < s.len() && s[m] == 41 {
                    Some((a, m + 1))
                } else {
                    None
                }
            },
            None => None,
        }
    } else {
        None
    }
}

/// The comparison at position `i`.
#[verifier::rlimit(50)]
#[verifier::spinoff_prover]
fn parse_comparison(s: &[u8], i: usize) -> (r: Option<(BExp, usize)>)
    requires
        i <= s.len(),
    ensures
        reads(r, comparison_at(s@, i as int), i, s@.len()),
{
    let le = bytes_le();
    match parse_aexp(s, i) {
        Some((l, j)) => match read_operator(s, j, le.as_slice()) {
            Some(k) => match parse_aexp(s, k) {
                Some((r, m)) => Some((BExp::LessEq(Box::new(l), Box::new(r)), m)),
                None => None,
            },
            None => None,
        },
        None => None,
    }
}

/// The boolean expression at position `i` and the position after it.
#[verifier::rlimit(50)]
#[verifier::spinoff_prover]
pub fn parse_bexp(s: &[u8], i: usize) -> (r: Option<(BExp, usize)>)
    requires
        i <= s.len(),
    ensures
        reads(r, bexp_at(s@, i as int), i, s@.len()),
    decreases s.len() - i,
{
    reveal(bexp_at);
    match parse_comparison(s, i) {
        Some((c, j)) => {
            let and = bytes_and();
            let or = bytes_or();
            match read_operator(s, j, and.as_slice()) {
                Some(k) => match parse_bexp(s, k) {
                    Some((d, m)) => Some((BExp::And(Box::new(c), Box::new(d)), m)),
                    None => Some((c, j)),
                },
                None => match read_operator(s, j, or.as_slice()) {
                    Some(k) => match parse_bexp(s, k) {
                        Some((d, m)) => Some((BExp::Or(Box::new(c), Box::new(d)), m)),
                        None => Some((c, j)),
                    },
                    None => Some((c, j)),
                },
            }
        },
        None => {
            if i < s.len() && s[i] == 33 {
                match parse_bexp(s, i + 1) {
                    Some((c, j)) => Some((BExp::Neg(Box::new(c)), j)),
                    None => None,
                }
            } else {
                None
            }
        },
    }
}

/// The assignment at position `i`.
#[verifier::rlimit(50)]
#[verifier::spinoff_prover]
fn parse_assignment(s: &[u8], i: usize) -> (r: Option<(ProgAtom, usize)>)
    requires
        i <= s.len(),
    ensures
        reads(r, assignment_at(s@, i as int), i, s@.len()),
{
    let assign = bytes_assign();
    let n = count_letters(s, i);
    if n > 0 {
        match read_operator(s, i + n, assign.as_slice()) {
            Some(k) => match parse_aexp(s, k) {
                Some((a, m)) => Some((ProgAtom::Assign(read_name(s, i, n), Box::new(a)), m)),
                None => None,
            },
            None => None,
        }
    } else {
        None
    }
}

/// The statement at position `i` and the position after it.
#[verifier::rlimit(50)]
#[verifier::spinoff_prover]
pub fn parse_statement(s: &[u8], i: usize) -> (r: Option<(ProgAtom, usize)>)
    requires
        i <= s.len(),
    ensures
        reads(r, statement_at(s@, i as int), i, s@.len()),
    decreases s.len() - i, 2int,
{
    reveal(conditional_at);
    let skip = bytes_skip();
    match read_keyword(s, i, skip.as_slice()) {
        Some(j) => Some((ProgAtom::Skip, j)),
        None => match parse_assignment(s, i) {
            Some(r) => Some(r),
            None => match parse_conditional(s, i) {
                Some(r) => Some(r),
                None => parse_loop(s, i),
            },
        },
    }
}

/// The conditional at position `i`.
#[verifier::rlimit(50)]
#[verifier::spinoff_prover]
fn parse_conditional(s: &[u8], i: usize) -> (r: Option<(ProgAtom, usize)>)
    requires
        i <= s.len(),
    ensures
        reads(r, conditional_at(s@, i as int), i, s@.len()),
    decreases s.len() - i, 1int,
{
    reveal(conditional_at);
    let word_if = bytes_if();
    let word_then = bytes_then();
    let word_else = bytes_else();
    let i1 = match read_opening(s, i, word_if.as_slice()) {
        Some(j) => j,
        None => {
            return None;
        },
    };
    let (b, i2) = match parse_bexp(s, i1) {
        Some(r) => r,
        None => {
            return None;
        },
    };
    let i3 = match read_spaced_word(s, i2, word_then.as_slice()) {
        Some(j) => j,
        None => {
            return None;
        },
    };
    let (p, i4) = match parse_program(s, i3) {
        Some(r) => r,
        None => {
            return None;
        },
    };
    let i5 = match read_spaced_word(s, i4, word_else.as_slice()) {
        Some(j) => j,
        None => {
            return None;
        },
    };
    let (q, i6) = match parse_program(s, i5) {
        Some(r) => r,
        None => {
            return None;
        },
    };
    match read_closing(s, i6) {
        Some(i7) => Some((ProgAtom::Cond(Box::new(b), Box::new(p), Box::new(q)), i7)),
        None => None,
    }
}

/// The loop at position `i`.
#[verifier::rlimit(50)]
#[verifier::spinoff_prover]
fn parse_loop(s: &[u8], i: usize) -> (r: Option<(ProgAtom, usize)>)
    requires
        i <= s.len(),
    ensures
        reads(r, loop_at(s@, i as int), i, s@.len()),
    decreases s.len() - i, 1int,
{
    reveal(conditional_at);
    let word_while = bytes_while();
    let word_do = bytes_do();
    let i1 = match read_opening(s, i, word_while.as_slice()) {
        Some(j) => j,
        None => {
            return None;
        },
    };
    let (b, i2) = match parse_bexp(s, i1) {
        Some(r) => r,
        None => {
            return None;
        },
    };
    let i3 = match read_spaced_word(s, i2, word_do.as_slice()) {
        Some(j) => j,
        None => {
            return None;
        },
    };
    let (p, i4) = match parse_program(s, i3) {
        Some(r) => r,
        None => {
            return None;
        },
    };
    match read_closing(s, i4) {
        Some(i5) => Some((ProgAtom::While(Box::new(b), Box::new(p)), i5)),
        None => None,
    }
}

/// The program at position `i` and the position after it.
#[verifier::rlimit(50)]
#[verifier::spinoff_prover]
pub fn parse_program(s: &[u8], i: usize) -> (r: Option<(Prog, usize)>)
    requires
        i <= s.len(),
    ensures
        reads(r, program_at(s@, i as int), i, s@.len()),
    decreases s.len() - i, 3int,
{
    reveal(conditional_at);
    let semi = bytes_semi();
    match parse_statement(s, i) {
        None => None,
        Some((a, j0)) => {
            let mut acc: Vec<ProgAtom> = Vec::new();
            acc.push(a);
            let mut j = j0;
            proof {
                assert(Prog::Prog(acc)@ =~= seq![a@]);
            }
            loop
                invariant
                    i < j <= s.len(),
                    semi@ == op_semi(),
                    program_rest(s@, j as int, Prog::Prog(acc)@) == program_at(s@, i as int),
                decreases s.len() - j,
            {
                proof {
                    reveal(conditional_at);
                }
                match read_operator(s, j, semi.as_slice()) {
                    None => {
                        return Some((Prog::Prog(acc), j));
                    },
                    Some(k) => match parse_statement(s, k) {
                        None => {
                            return Some((Prog::Prog(acc), j));
                        },
                        Some((b, m)) => {
                            let ghost before = Prog::Prog(acc)@;
                            acc.push(b);
                            proof {
                                assert(Prog::Prog(acc)@ =~= before.push(b@));
                            }
                            j = m;
                        },
                    },
                }
            }
        },
    }
}

/// Why a text is not a program.
#[derive(Debug, PartialEq, Eq)]
pub enum ParseError {
    /// No program stands at the start of the text, which is given.
    NoProgram(Vec<u8>),
    /// A program stands at the start, and the rest of the text, which is
    /// given, follows it.
    Trailing(Vec<u8>),
}

impl View for ParseError {
    type V = ParseErrorView;

    open spec fn view(&self) -> ParseErrorView {
        match self {
            ParseError::NoProgram(t) => ParseErrorView::NoProgram(t@),
            ParseError::Trailing(t) => ParseErrorView::Trailing(t@),
        }
    }
}

/// The characters that the bytes `t` encode, or nothing if they are not
/// an encoding of characters.
pub open spec fn shown(t: Seq<u8>) -> Seq<char> {
    if valid_utf8(t) {
        decode_utf8(t)
    } else {
        Seq::empty()
    }
}

/// The message of an error: what went wrong, and the text at which it did.
pub open spec fn error_text(e: ParseErrorView) -> Seq<char> {
    match e {
        ParseErrorView::NoProgram(t) => "Parsing failed. "@ + shown(t),
        ParseErrorView::Trailing(t) => "Parsing failed. The following code was not parsed. "@ + shown(t),
    }
}

/// `String::from_utf8` of std: the string that the bytes encode in UTF-8,
/// or nothing if they are not valid UTF-8.
#[verifier::external_body]
fn string_from_utf8(bytes: Vec<u8>) -> (r: Option<String>)
    ensures
        match r {
            Some(s) => valid_utf8(bytes@) && s@ == decode_utf8(bytes@),
            None => !valid_utf8(bytes@),
        },
{
    match String::from_utf8(bytes) {
        Ok(s) => Some(s),
        Err(_) => None,
    }
}

impl ParseError {
    /// The message of the error.
    pub fn to_string(&self) -> (r: String)
        ensures
            r@ == error_text(self@),
    {
        let mut out = String::new();
        let rest = match self {
            ParseError::NoProgram(t) => {
                out.append("Parsing failed. ");
                t.clone()
            },
            ParseError::Trailing(t) => {
                out.append("Parsing failed. The following code was not parsed. ");
                t.clone()
            },
        };
        proof {
            assert(rest@ =~= match self {
                ParseError::NoProgram(t) => t@,
                ParseError::Trailing(t) => t@,
            });
        }
        match string_from_utf8(rest) {
            Some(text) => {
                out.append(text.as_str());
            },
            None => {},
        }
        proof {
            assert(out@ =~= error_text(self@));
        }
        out
    }
}

/// The text without its comments.
fn strip_comments(s: &[u8]) -> (r: Vec<u8>)
    ensures
        r@ == uncomment(s@, 0, false),
{
    let mut r: Vec<u8> = Vec::new();
    let mut inside = false;
    let mut i: usize = 0;
    while i < s.len()
        invariant
            i <= s.len(),
            r@ + uncomment(s@, i as int, inside) == uncomment(s@, 0, false),
        decreases s.len() - i,
    {
        let b = s[i];
        let ghost before = r@;
        if b == 10 {
            r.push(b);
            inside = false;
            proof {
                assert(r@ + uncomment(s@, i + 1, false) =~= before + (seq![10u8] + uncomment(s@, i + 1, false)));
            }
        } else if inside || b == 35 {
            inside = true;
        } else {
            r.push(b);
            proof {
                assert(r@ + uncomment(s@, i + 1, false) =~= before + (seq![b] + uncomment(s@, i + 1, false)));
            }
        }
        i += 1;
    }
    proof {
        assert(r@ + uncomment(s@, i as int, inside) =~= r@);
    }
    r
}

/// Whether the byte is a white-space character of one byte.
fn blank(b: u8) -> (r: bool)
    ensures
        r == is_blank(b),
{
    b == 32 || (9 <= b && b <= 13)
}

/// Whether the two bytes encode a white-space character.
fn blank2(a: u8, b: u8) -> (r: bool)
    ensures
        r == is_blank2(a, b),
{
    a == 0xC2 && (b == 0x85 || b == 0xA0)
}

/// Whether the three bytes encode a white-space character.
fn blank3(a: u8, b: u8, c: u8) -> (r: bool)
    ensures
        r == is_blank3(a, b, c),
{
    (a == 0xE1 && b == 0x9A && c == 0x80) || (a == 0xE2 && b == 0x80 && ((0x80 <= c && c <= 0x8A) || c == 0xA8
        || c == 0xA9 || c == 0xAF)) || (a == 0xE2 && b == 0x81 && c == 0x9F) || (a == 0xE3 && b == 0x80 && c
        == 0x80)
}

/// The number of bytes of the white-space character at position `i`.
fn white_len_at(s: &[u8], i: usize) -> (w: usize)
    requires
        i <= s.len(),
    ensures
        w == white_at(s@, i as int),
        i + w <= s.len(),
{
    let n = s.len();
    if n - i >= 1 && blank(s[i]) {
        1
    } else if n - i >= 2 && blank2(s[i], s[i + 1]) {
        2
    } else if n - i >= 3 && blank3(s[i], s[i + 1], s[i + 2]) {
        3
    } else {
        0
    }
}

/// The number of bytes of the white-space character that ends before
/// position `n` and does not start before position `lo`.
fn white_len_before(s: &[u8], lo: usize, n: usize) -> (w: usize)
    requires
        lo <= n <= s.len(),
    ensures
        w == white_before(s@, lo as int, n as int),
        lo + w <= n,
{
    if n - lo >= 1 && blank(s[n - 1]) {
        1
    } else if n - lo >= 2 && blank2(s[n - 2], s[n - 1]) {
        2
    } else if n - lo >= 3 && blank3(s[n - 3], s[n - 2], s[n - 1]) {
        3
    } else {
        0
    }
}

/// The text without the white space at its start and at its end.
fn trimmed(s: &[u8]) -> (r: Vec<u8>)
    ensures
        r@ == trim(s@),
{
    let mut a: usize = 0;
    let mut w = white_len_at(s, a);
    while w > 0
        invariant
            a <= s.len(),
            w == white_at(s@, a as int),
            a + w <= s.len(),
            blanks(s@, 0) == a + blanks(s@, a as int),
        decreases s.len() - a,
    {
        a += w;
        w = white_len_at(s, a);
    }
    let mut r: Vec<u8> = Vec::new();
    if a >= s.len() {
        return r;
    }
    let mut e: usize = s.len();
    let mut v = white_len_before(s, a, e);
    while v > 0
        invariant
            a <= e <= s.len(),
            v == white_before(s@, a as int, e as int),
            a + v <= e,
            blanks_before(s@, a as int, s@.len() as int) == (s@.len() - e) + blanks_before(
                s@,
                a as int,
                e as int,
            ),
        decreases e,
    {
        e -= v;
        v = white_len_before(s, a, e);
    }
    let mut k: usize = a;
    while k < e
        invariant
            a <= k <= e <= s.len(),
            r@ == s@.subrange(a as int, k as int),
        decreases e - k,
    {
        r.push(s[k]);
        proof {
            assert(r@ =~= s@.subrange(a as int, k + 1));
        }
        k += 1;
    }
    r
}

/// The program that the text `input` stands for.
pub fn parse_bytes(input: &[u8]) -> (r: Result<Prog, ParseError>)
    ensures
        match r {
            Ok(p) => parsed(input@) == Ok::<Seq<AtomView>, ParseErrorView>(p@),
            Err(e) => parsed(input@) == Err::<Seq<AtomView>, ParseErrorView>(e@),
        },
{
    let text = strip_comments(input);
    let t = trimmed(text.as_slice());
    match parse_program(t.as_slice(), 0) {
        Some((p, j)) => {
            if j == t.len() {
                Ok(p)
            } else {
                let mut rest: Vec<u8> = Vec::new();
                let mut k: usize = j;
                while k < t.len()
                    invariant
                        j <= k <= t.len(),
                        rest@ == t@.subrange(j as int, k as int),
                    decreases t.len() - k,
                {
                    rest.push(t[k]);
                    proof {
                        assert(rest@ =~= t@.subrange(j as int, k + 1));
                    }
                    k += 1;
                }
                proof {
                    assert(rest@ =~= t@.skip(j as int));
                }
                Err(ParseError::Trailing(rest))
            }
        },
        None => Err(ParseError::NoProgram(t)),
    }
}

/// The program that the text `s` stands for, or the message of the error
/// that says why it stands for none.
pub fn parse(s: &str) -> (r: Result<Prog, String>)
    ensures
        match r {
            Ok(p) => parsed(s.spec_bytes()) == Ok::<Seq<AtomView>, ParseErrorView>(p@),
            Err(m) => match parsed(s.spec_bytes()) {
                Err(e) => m@ == error_text(e),
                Ok(_) => false,
            },
        },
{
    match parse_bytes(s.as_bytes()) {
        Ok(p) => Ok(p),
        Err(e) => Err(e.to_string()),
    }
}

} // verus!
