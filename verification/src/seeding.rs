//! Seeding: candidate solutions typed by an operator as strings of letters.
//!
//! A string names the active cells of one candidate by their letters. A
//! seed is rejected before anything is written to the library.

use vstd::prelude::*;
use vstd::string::StrSliceExecFns;
use crate::cells::Coord;
use crate::labels::{labelled, labelled_cells, letter, letter_of, letter_rank, rank_of, ALPHABET_LEN};
use crate::shape::{solutions_view, Shape, Solution};

verus! {

/// Why a seed is rejected.
#[derive(Debug, Clone, Copy, PartialEq, Eq, Structural)]
pub enum SeedError {
    /// The shape has no cells.
    EmptyShape,
    /// The shape has more cells than there are letters.
    TooManyCells,
    /// The character at position `at` of string `solution` is no letter.
    UnknownLetter { solution: usize, at: usize },
    /// The letter at position `at` of string `solution` occurs earlier in it.
    DuplicateLetter { solution: usize, at: usize },
    /// String `solution` names the same cells as an earlier string.
    DuplicateSolution { solution: usize },
    /// The character at position `at` names no cell of the shape.
    LetterNotInShape { at: usize },
}

/// Whether `c` is the letter of one of `count` cells.
pub open spec fn names_cell(c: char, count: int) -> bool {
    letter_rank(c) matches Some(k) && k < count
}

/// The first of the first `n` positions of `s` whose character names none
/// of `count` cells.
pub open spec fn first_stray(s: Seq<char>, count: int, n: int) -> Option<int>
    decreases n,
{
    if n <= 0 {
        None
    } else {
        match first_stray(s, count, n - 1) {
            Some(i) => Some(i),
            None => if names_cell(s[n - 1], count) {
                None
            } else {
                Some(n - 1)
            },
        }
    }
}

/// The cells among the first `k` of `cells` whose letter occurs in `s`.
pub open spec fn picked(cells: Seq<Coord>, s: Seq<char>, k: int) -> Seq<Coord>
    decreases k,
{
    if k <= 0 {
        Seq::empty()
    } else if s.contains(letter(k - 1)) {
        picked(cells, s, k - 1).push(cells[k - 1])
    } else {
        picked(cells, s, k - 1)
    }
}

/// The candidate that the string `s` names for a shape with the given
/// cells: the cells whose letters occur in `s`, in the order of the
/// letters. Every character of `s` must be the letter of a cell.
pub open spec fn seeded(group: Seq<Coord>, s: Seq<char>) -> Result<Seq<Coord>, SeedError> {
    let cells = labelled(group);
    if group.len() == 0 {
        Err(SeedError::EmptyShape)
    } else if cells.len() > ALPHABET_LEN {
        Err(SeedError::TooManyCells)
    } else {
        match first_stray(s, cells.len() as int, s.len() as int) {
            Some(at) => Err(SeedError::LetterNotInShape { at: at as usize }),
            None => Ok(picked(cells, s, cells.len() as int)),
        }
    }
}

/// The characters of `s`.
pub fn chars_of(s: &str) -> (r: Vec<char>)
    ensures
        r@ == s@,
{
    let n = s.unicode_len();
    let mut out: Vec<char> = Vec::new();
    let mut i: usize = 0;
    while i < n
        invariant
            i <= n,
            n == s@.len(),
            out@.len() == i,
            forall|j: int| 0 <= j < i ==> out@[j] == s@[j],
        decreases n - i,
    {
        out.push(s.get_char(i));
        i = i + 1;
    }
    assert(out@ =~= s@);
    out
}

/// Whether `c` occurs among the first `n` of `chars`.
pub fn has_char(chars: &Vec<char>, n: usize, c: char) -> (r: bool)
    requires
        n <= chars@.len(),
    ensures
        r == chars@.take(n as int).contains(c),
{
    let mut i: usize = 0;
    while i < n
        invariant
            i <= n,
            n <= chars@.len(),
            forall|j: int| 0 <= j < i ==> chars@[j] != c,
        decreases n - i,
    {
        if chars[i] == c {
            assert(chars@.take(n as int)[i as int] == c);
            return true;
        }
        i = i + 1;
    }
    false
}

/// Turns a string of letters into the candidate that it names: the cells of
/// the shape whose letters occur in the string, each once, in the order of
/// the letters. The string must name a candidate: the shape has cells, no
/// more than there are letters, and every character is the letter of a
/// cell. `read_solution_string` tells whether it does.
pub fn solution_string_to_solution(solutions: &str, shape: &Shape) -> (out: Solution)
    requires
        seeded(shape@.group, solutions@) is Ok,
    ensures
        seeded(shape@.group, solutions@) == Ok::<Seq<Coord>, SeedError>(out@),
{
    match read_solution_string(solutions, shape) {
        Ok(out) => out,
        Err(_) => {
            assert(false);
            Vec::new()
        },
    }
}

/// Reads a string of letters as a candidate of the shape, or says why it
/// names none: see `seeded`.
pub fn read_solution_string(solutions: &str, shape: &Shape) -> (r: Result<Solution, SeedError>)
    ensures
        match r {
            Ok(out) => seeded(shape@.group, solutions@) == Ok::<Seq<Coord>, SeedError>(out@),
            Err(e) => seeded(shape@.group, solutions@) == Err::<Seq<Coord>, SeedError>(e),
        },
{
    if shape.group.len() == 0 {
        return Err(SeedError::EmptyShape);
    }
    let cells = labelled_cells(shape.group.as_slice());
    if cells.len() > ALPHABET_LEN {
        return Err(SeedError::TooManyCells);
    }
    let chars = chars_of(solutions);
    let count = cells.len();
    let mut i: usize = 0;
    while i < chars.len()
        invariant
            i <= chars@.len(),
            count <= ALPHABET_LEN,
            chars@ == solutions@,
            shape@.group.len() > 0,
            cells@ == labelled(shape@.group),
            count == cells@.len(),
            first_stray(chars@, count as int, i as int) is None,
        decreases chars.len() - i,
    {
        let known = match rank_of(chars[i]) {
            Some(k) => k < count,
            None => false,
        };
        if !known {
            proof {
                lemma_first_stray(chars@, count as int, i as int + 1, chars@.len() as int);
            }
            return Err(SeedError::LetterNotInShape { at: i });
        }
        i = i + 1;
    }
    let mut out: Vec<Coord> = Vec::new();
    let mut k: usize = 0;
    while k < count
        invariant
            k <= count,
            count == cells@.len(),
            count <= ALPHABET_LEN,
            out@ == picked(cells@, chars@, k as int),
        decreases count - k,
    {
        assert(chars@.take(chars@.len() as int) =~= chars@);
        if has_char(&chars, chars.len(), letter_of(k)) {
            out.push(cells[k]);
        }
        k = k + 1;
    }
    Ok(out)
}

/// A stray character among the first `k` is the first stray of them all.
pub proof fn lemma_first_stray(s: Seq<char>, count: int, k: int, n: int)
    requires
        0 <= k <= n,
        first_stray(s, count, k) is Some,
    ensures
        first_stray(s, count, n) == first_stray(s, count, k),
    decreases n,
{
    if k < n {
        lemma_first_stray(s, count, k, n - 1);
    }
}

/// Whether the first `n` characters are letters, each once.
pub open spec fn letters_once(s: Seq<char>, n: int) -> bool {
    &&& forall|i: int| 0 <= i < n ==> letter_rank(#[trigger] s[i]) is Some
    &&& forall|i: int, j: int| 0 <= i < j < n ==> #[trigger] s[i] != #[trigger] s[j]
}

/// What is wrong with the first `n` characters of string `solution`, read
/// from the left: a character that is no letter, or a letter that occurred
/// before.
pub open spec fn letters_fault(s: Seq<char>, solution: int, n: int) -> Option<SeedError>
    decreases n,
{
    if n <= 0 {
        None
    } else {
        match letters_fault(s, solution, n - 1) {
            Some(e) => Some(e),
            None => if letter_rank(s[n - 1]) is None {
                Some(SeedError::UnknownLetter { solution: solution as usize, at: (n - 1) as usize })
            } else if s.take(n - 1).contains(s[n - 1]) {
                Some(
                    SeedError::DuplicateLetter { solution: solution as usize, at: (n - 1) as usize },
                )
            } else {
                None
            },
        }
    }
}

/// Whether two strings name the same cells.
pub open spec fn same_letters(a: Seq<char>, b: Seq<char>) -> bool {
    forall|c: char| a.contains(c) <==> b.contains(c)
}

/// Whether one of the first `j` strings names the same cells as string `k`.
pub open spec fn repeats(strings: Seq<Seq<char>>, k: int, j: int) -> bool {
    exists|i: int| 0 <= i < j && same_letters(#[trigger] strings[i], strings[k])
}

/// What is wrong with the letters of the first `k` strings, read in their
/// order.
pub open spec fn strings_fault(strings: Seq<Seq<char>>, k: int) -> Option<SeedError>
    decreases k,
{
    if k <= 0 {
        None
    } else {
        match strings_fault(strings, k - 1) {
            Some(e) => Some(e),
            None => letters_fault(strings[k - 1], k - 1, strings[k - 1].len() as int),
        }
    }
}

/// The first of the first `k` strings that names the same cells as a string
/// before it.
pub open spec fn repeat_fault(strings: Seq<Seq<char>>, k: int) -> Option<SeedError>
    decreases k,
{
    if k <= 0 {
        None
    } else {
        match repeat_fault(strings, k - 1) {
            Some(e) => Some(e),
            None => if repeats(strings, k - 1, k - 1) {
                Some(SeedError::DuplicateSolution { solution: (k - 1) as usize })
            } else {
                None
            },
        }
    }
}

/// Why a seed is rejected, if it is: the strings are checked in turn, each
/// for characters that are no letters and for repeated letters; then each
/// is compared with the strings before it.
pub open spec fn seed_fault(strings: Seq<Seq<char>>) -> Option<SeedError> {
    match strings_fault(strings, strings.len() as int) {
        Some(e) => Some(e),
        None => repeat_fault(strings, strings.len() as int),
    }
}

/// Whether the strings make a seed: each consists of letters, each letter
/// once, and no two strings name the same cells.
pub open spec fn seed_ok(strings: Seq<Seq<char>>) -> bool {
    &&& forall|i: int|
        0 <= i < strings.len() ==> letters_once(#[trigger] strings[i], strings[i].len() as int)
    &&& forall|i: int, j: int|
        0 <= i < j < strings.len() ==> !same_letters(#[trigger] strings[i], #[trigger] strings[j])
}

/// A string has no fault in its letters exactly where they are letters,
/// each once.
pub proof fn lemma_letters_fault(s: Seq<char>, solution: int, n: int)
    requires
        0 <= n <= s.len(),
    ensures
        letters_fault(s, solution, n) is None <==> letters_once(s, n),
    decreases n,
{
    if n > 0 {
        lemma_letters_fault(s, solution, n - 1);
        if letters_once(s, n - 1) {
            let before = s.take(n - 1);
            let last = s[n - 1];
            if before.contains(last) {
                let j = choose|j: int| 0 <= j < before.len() && before[j] == last;
                assert(s[j] == s[n - 1]);
            }
            if letters_once(s, n) {
                assert forall|j: int| 0 <= j < before.len() implies before[j] != last by {
                    assert(s[j] != s[n - 1]);
                }
            } else if letter_rank(s[n - 1]) is Some {
                let (i, j) = choose|i: int, j: int|
                    0 <= i < j < n && #[trigger] s[i] == #[trigger] s[j];
                assert(j == n - 1);
                assert(before[i] == last);
            }
        } else {
            if letters_once(s, n) {
                assert(letters_once(s, n - 1));
            }
        }
    }
}

/// A fault among the first characters is the fault of the string.
pub proof fn lemma_letters_fault_stays(s: Seq<char>, solution: int, k: int, n: int)
    requires
        0 <= k <= n,
        letters_fault(s, solution, k) is Some,
    ensures
        letters_fault(s, solution, n) == letters_fault(s, solution, k),
    decreases n,
{
    if k < n {
        lemma_letters_fault_stays(s, solution, k, n - 1);
    }
}

/// A fault among the first strings is the fault of them all.
pub proof fn lemma_strings_fault_stays(strings: Seq<Seq<char>>, k: int, n: int)
    requires
        0 <= k <= n,
        strings_fault(strings, k) is Some,
    ensures
        strings_fault(strings, n) == strings_fault(strings, k),
    decreases n,
{
    if k < n {
        lemma_strings_fault_stays(strings, k, n - 1);
    }
}

/// A repeated string among the first is the first repeated of them all.
pub proof fn lemma_repeat_fault_stays(strings: Seq<Seq<char>>, k: int, n: int)
    requires
        0 <= k <= n,
        repeat_fault(strings, k) is Some,
    ensures
        repeat_fault(strings, n) == repeat_fault(strings, k),
    decreases n,
{
    if k < n {
        lemma_repeat_fault_stays(strings, k, n - 1);
    }
}

/// The first strings have no fault in their letters exactly where each
/// consists of letters, each once.
pub proof fn lemma_strings_fault(strings: Seq<Seq<char>>, k: int)
    requires
        0 <= k <= strings.len(),
    ensures
        strings_fault(strings, k) is None <==> forall|i: int|
            0 <= i < k ==> letters_once(#[trigger] strings[i], strings[i].len() as int),
    decreases k,
{
    if k > 0 {
        lemma_strings_fault(strings, k - 1);
        lemma_letters_fault(strings[k - 1], k - 1, strings[k - 1].len() as int);
    }
}

/// None of the first strings repeats an earlier one exactly where no two of
/// them name the same cells.
pub proof fn lemma_repeat_fault(strings: Seq<Seq<char>>, k: int)
    requires
        0 <= k <= strings.len(),
    ensures
        repeat_fault(strings, k) is None <==> forall|i: int, j: int|
            0 <= i < j < k ==> !same_letters(#[trigger] strings[i], #[trigger] strings[j]),
    decreases k,
{
    if k > 0 {
        lemma_repeat_fault(strings, k - 1);
        if repeat_fault(strings, k - 1) is None {
            if repeats(strings, k - 1, k - 1) {
                let i = choose|i: int|
                    0 <= i < k - 1 && same_letters(#[trigger] strings[i], strings[k - 1]);
                assert(same_letters(strings[i], strings[k - 1]));
            } else {
                assert forall|i: int, j: int| 0 <= i < j < k implies !same_letters(
                    #[trigger] strings[i],
                    #[trigger] strings[j],
                ) by {
                    if j == k - 1 {
                        if same_letters(strings[i], strings[j]) {
                            assert(repeats(strings, k - 1, k - 1));
                        }
                    }
                }
            }
        }
    }
}

/// A seed has no fault exactly where it is in order.
pub proof fn lemma_seed_fault(strings: Seq<Seq<char>>)
    ensures
        seed_fault(strings) is None <==> seed_ok(strings),
{
    lemma_strings_fault(strings, strings.len() as int);
    lemma_repeat_fault(strings, strings.len() as int);
}

/// Checks one string: its characters are letters, each once.
fn check_letters(chars: &Vec<char>, solution: usize) -> (r: Result<(), SeedError>)
    ensures
        r == (match letters_fault(chars@, solution as int, chars@.len() as int) {
            Some(e) => Err::<(), SeedError>(e),
            None => Ok::<(), SeedError>(()),
        }),
{
    let mut i: usize = 0;
    while i < chars.len()
        invariant
            i <= chars@.len(),
            letters_fault(chars@, solution as int, i as int) is None,
        decreases chars.len() - i,
    {
        if rank_of(chars[i]).is_none() {
            proof {
                lemma_letters_fault_stays(chars@, solution as int, i + 1, chars@.len() as int);
            }
            return Err(SeedError::UnknownLetter { solution, at: i });
        }
        if has_char(chars, i, chars[i]) {
            proof {
                lemma_letters_fault_stays(chars@, solution as int, i + 1, chars@.len() as int);
            }
            return Err(SeedError::DuplicateLetter { solution, at: i });
        }
        i = i + 1;
    }
    Ok(())
}

/// Whether two strings, each without a repeated character, name the same
/// cells.
fn names_same(a: &Vec<char>, b: &Vec<char>) -> (r: bool)
    requires
        letters_once(a@, a@.len() as int),
        letters_once(b@, b@.len() as int),
    ensures
        r == same_letters(a@, b@),
{
    if a.len() != b.len() {
        proof {
            lemma_distinct_sets_differ(a@, b@);
        }
        return false;
    }
    let mut i: usize = 0;
    while i < a.len()
        invariant
            i <= a@.len(),
            a@.len() == b@.len(),
            forall|j: int| 0 <= j < i ==> b@.contains(#[trigger] a@[j]),
        decreases a.len() - i,
    {
        assert(b@.take(b@.len() as int) =~= b@);
        if !has_char(b, b.len(), a[i]) {
            assert(a@.contains(a@[i as int]));
            return false;
        }
        i = i + 1;
    }
    proof {
        lemma_subset_of_equal_size(a@, b@);
    }
    true
}

/// Two lists without repetitions that hold the same characters are equally
/// long.
pub proof fn lemma_distinct_sets_differ(a: Seq<char>, b: Seq<char>)
    requires
        a.no_duplicates(),
        b.no_duplicates(),
        a.len() != b.len(),
    ensures
        !same_letters(a, b),
{
    if same_letters(a, b) {
        a.unique_seq_to_set();
        b.unique_seq_to_set();
        assert(a.to_set() =~= b.to_set());
    }
}

/// A list without repetitions that lies within another of the same length
/// holds the same characters.
pub proof fn lemma_subset_of_equal_size(a: Seq<char>, b: Seq<char>)
    requires
        a.no_duplicates(),
        b.no_duplicates(),
        a.len() == b.len(),
        forall|j: int| 0 <= j < a.len() ==> b.contains(#[trigger] a[j]),
    ensures
        same_letters(a, b),
{
    a.unique_seq_to_set();
    b.unique_seq_to_set();
    assert(a.to_set().subset_of(b.to_set())) by {
        assert forall|c: char| a.to_set().contains(c) implies b.to_set().contains(c) by {
            let j = choose|j: int| 0 <= j < a.len() && a[j] == c;
            assert(b.contains(a[j]));
        }
    }
    vstd::set_lib::lemma_subset_equality(a.to_set(), b.to_set());
    assert forall|c: char| a.contains(c) <==> b.contains(c) by {
        assert(a.to_set().contains(c) == b.to_set().contains(c));
    }
}

/// The characters of each string.
pub open spec fn strings_view(v: Seq<String>) -> Seq<Seq<char>> {
    Seq::new(v.len(), |i: int| v[i]@)
}

/// Checks a seed as a whole: see `seed_fault`. A seed is accepted exactly
/// where it is in order: see `lemma_seed_fault`.
pub fn check_seed(strings: &Vec<String>) -> (r: Result<(), SeedError>)
    ensures
        r == (match seed_fault(strings_view(strings@)) {
            Some(e) => Err::<(), SeedError>(e),
            None => Ok::<(), SeedError>(()),
        }),
{
    let ghost all = strings_view(strings@);
    let mut parsed: Vec<Vec<char>> = Vec::new();
    let mut i: usize = 0;
    while i < strings.len()
        invariant
            i <= strings@.len(),
            all == strings_view(strings@),
            parsed@.len() == i,
            forall|j: int| 0 <= j < i ==> (#[trigger] parsed@[j])@ == all[j],
            strings_fault(all, i as int) is None,
        decreases strings.len() - i,
    {
        let chars = chars_of(strings[i].as_str());
        assert(all[i as int] == chars@);
        match check_letters(&chars, i) {
            Err(e) => {
                proof {
                    lemma_strings_fault_stays(all, i + 1, all.len() as int);
                }
                return Err(e);
            },
            Ok(()) => {},
        }
        parsed.push(chars);
        i = i + 1;
    }
    proof {
        lemma_strings_fault(all, all.len() as int);
    }
    let mut k: usize = 0;
    while k < parsed.len()
        invariant
            k <= parsed@.len(),
            all == strings_view(strings@),
            parsed@.len() == all.len(),
            forall|j: int| 0 <= j < parsed@.len() ==> (#[trigger] parsed@[j])@ == all[j],
            forall|j: int|
                0 <= j < all.len() ==> letters_once(#[trigger] all[j], all[j].len() as int),
            strings_fault(all, all.len() as int) is None,
            repeat_fault(all, k as int) is None,
        decreases parsed.len() - k,
    {
        let mut j: usize = 0;
        while j < k
            invariant
                j <= k,
                k < parsed@.len(),
                all == strings_view(strings@),
                parsed@.len() == all.len(),
                forall|q: int| 0 <= q < parsed@.len() ==> (#[trigger] parsed@[q])@ == all[q],
                forall|q: int|
                    0 <= q < all.len() ==> letters_once(#[trigger] all[q], all[q].len() as int),
                strings_fault(all, all.len() as int) is None,
                repeat_fault(all, k as int) is None,
                !repeats(all, k as int, j as int),
            decreases k - j,
        {
            assert(letters_once(all[j as int], all[j as int].len() as int));
            assert(letters_once(all[k as int], all[k as int].len() as int));
            if names_same(&parsed[j], &parsed[k]) {
                proof {
                    assert(same_letters(all[j as int], all[k as int]));
                    assert(repeats(all, k as int, k as int));
                    lemma_repeat_fault_stays(all, k + 1, all.len() as int);
                }
                return Err(SeedError::DuplicateSolution { solution: k });
            }
            proof {
                if repeats(all, k as int, j + 1) {
                    let i = choose|i: int|
                        0 <= i < j + 1 && same_letters(#[trigger] all[i], all[k as int]);
                    if i < j {
                        assert(repeats(all, k as int, j as int));
                    }
                }
            }
            j = j + 1;
        }
        k = k + 1;
    }
    Ok(())
}

/// The candidates that the first `k` strings name, or the error of the
/// first string that names none.
pub open spec fn seeded_all(group: Seq<Coord>, strings: Seq<Seq<char>>, k: int) -> Result<
    Seq<Seq<Coord>>,
    SeedError,
>
    decreases k,
{
    if k <= 0 {
        Ok(Seq::empty())
    } else {
        match seeded_all(group, strings, k - 1) {
            Err(e) => Err(e),
            Ok(sofar) => match seeded(group, strings[k - 1]) {
                Err(e) => Err(e),
                Ok(solution) => Ok(sofar.push(solution)),
            },
        }
    }
}

/// What a seed gives for a shape: the fault of the seed, if it has one, or
/// else the candidates that its strings name.
pub open spec fn seed_outcome(group: Seq<Coord>, strings: Seq<Seq<char>>) -> Result<
    Seq<Seq<Coord>>,
    SeedError,
> {
    match seed_fault(strings) {
        Some(e) => Err(e),
        None => seeded_all(group, strings, strings.len() as int),
    }
}

/// An error among the first strings is the error of them all.
pub proof fn lemma_seeded_all_error(group: Seq<Coord>, strings: Seq<Seq<char>>, k: int, n: int)
    requires
        0 <= k <= n,
        seeded_all(group, strings, k) is Err,
    ensures
        seeded_all(group, strings, n) == seeded_all(group, strings, k),
    decreases n,
{
    if k < n {
        lemma_seeded_all_error(group, strings, k, n - 1);
    }
}

/// Checks a seed and turns its strings into the candidates that they name,
/// in their order: see `seed_outcome`.
pub fn seed_solutions(shape: &Shape, strings: &Vec<String>) -> (r: Result<Vec<Solution>, SeedError>)
    ensures
        match r {
            Ok(solutions) => seed_outcome(shape@.group, strings_view(strings@)) == Ok::<
                Seq<Seq<Coord>>,
                SeedError,
            >(solutions_view(solutions@)),
            Err(e) => seed_outcome(shape@.group, strings_view(strings@)) == Err::<
                Seq<Seq<Coord>>,
                SeedError,
            >(e),
        },
{
    let ghost all = strings_view(strings@);
    match check_seed(strings) {
        Err(e) => {
            return Err(e);
        },
        Ok(()) => {},
    }
    let mut out: Vec<Solution> = Vec::new();
    let mut i: usize = 0;
    assert(solutions_view(out@) =~= Seq::<Seq<Coord>>::empty());
    while i < strings.len()
        invariant
            i <= strings@.len(),
            all == strings_view(strings@),
            seed_fault(all) is None,
            seeded_all(shape@.group, all, i as int) == Ok::<Seq<Seq<Coord>>, SeedError>(
                solutions_view(out@),
            ),
        decreases strings.len() - i,
    {
        let ghost had = solutions_view(out@);
        assert(all[i as int] == strings@[i as int]@);
        match read_solution_string(strings[i].as_str(), shape) {
            Err(e) => {
                proof {
                    lemma_seeded_all_error(shape@.group, all, i + 1, all.len() as int);
                }
                return Err(e);
            },
            Ok(solution) => {
                out.push(solution);
                assert(solutions_view(out@) =~= had.push(solution@));
            },
        }
        i = i + 1;
    }
    Ok(out)
}

} // verus!
