//! Substring search over the characters of a line.
use vstd::prelude::*;

verus! {

/// Whether `pat` occurs in `s` starting at position `i`.
pub open spec fn occurs_at(s: Seq<char>, pat: Seq<char>, i: int) -> bool {
    0 <= i && i + pat.len() <= s.len() && s.subrange(i, i + pat.len()) == pat
}

/// `i` is the leftmost position at which `pat` occurs in `s`.
pub open spec fn is_first_occurrence(s: Seq<char>, pat: Seq<char>, i: int) -> bool {
    occurs_at(s, pat, i) && forall|j: int| 0 <= j < i ==> !occurs_at(s, pat, j)
}

/// Whether `pat` occurs anywhere in `s`.
pub open spec fn contains(s: Seq<char>, pat: Seq<char>) -> bool {
    exists|i: int| occurs_at(s, pat, i)
}

/// The leftmost position of `pat` in `s`, if any.
pub open spec fn find(s: Seq<char>, pat: Seq<char>) -> Option<int> {
    if exists|i: int| is_first_occurrence(s, pat, i) {
        Some(choose|i: int| is_first_occurrence(s, pat, i))
    } else {
        None
    }
}

/// The closing delimiter of a quoted value.
pub open spec fn quote() -> Seq<char> {
    seq!['"']
}

/// The text that follows the first occurrence of `marker` in `line`, up to
/// (not including) the next double quote. `None` when the marker is absent
/// or no quote closes the value.
pub open spec fn value_after(line: Seq<char>, marker: Seq<char>) -> Option<Seq<char>> {
    match find(line, marker) {
        Some(i) => {
            let rest = line.subrange(i + marker.len(), line.len() as int);
            match find(rest, quote()) {
                Some(q) => Some(rest.subrange(0, q)),
                None => None,
            }
        },
        None => None,
    }
}

/// There is at most one leftmost occurrence.
pub proof fn lemma_first_occurrence_unique(s: Seq<char>, pat: Seq<char>, i: int, j: int)
    requires
        is_first_occurrence(s, pat, i),
        is_first_occurrence(s, pat, j),
    ensures
        i == j,
{
}

/// A pattern that occurs somewhere has a leftmost occurrence.
pub proof fn lemma_contains_has_first(s: Seq<char>, pat: Seq<char>, i: int)
    requires
        occurs_at(s, pat, i),
    ensures
        exists|k: int| is_first_occurrence(s, pat, k),
    decreases i,
{
    if !is_first_occurrence(s, pat, i) {
        let j = choose|j: int| 0 <= j < i && occurs_at(s, pat, j);
        lemma_contains_has_first(s, pat, j);
    }
}

/// `find` succeeds exactly when the pattern occurs.
pub proof fn lemma_find_iff_contains(s: Seq<char>, pat: Seq<char>)
    ensures
        find(s, pat) is Some <==> contains(s, pat),
        find(s, pat) matches Some(i) ==> is_first_occurrence(s, pat, i),
{
    if contains(s, pat) {
        let i = choose|i: int| occurs_at(s, pat, i);
        lemma_contains_has_first(s, pat, i);
    }
}

/// The characters of `s`, in order.
pub fn chars_of(s: &str) -> (r: Vec<char>)
    ensures
        r@ == s@,
{
    let mut r: Vec<char> = Vec::new();
    for c in it: s.chars()
        invariant
            it.seq() == s@,
            r@ == it.seq().take(it.index() as int),
    {
        r.push(c);
    }
    r
}

/// Whether `pat` occurs in `s` at position `i`.
fn matches_at(s: &Vec<char>, i: usize, pat: &Vec<char>) -> (r: bool)
    requires
        i + pat@.len() <= s@.len(),
    ensures
        r == occurs_at(s@, pat@, i as int),
{
    let n: usize = s.len();
    let mut k: usize = 0;
    while k < pat.len()
        invariant
            n == s@.len(),
            i + pat@.len() <= s@.len(),
            k <= pat@.len(),
            forall|j: int| 0 <= j < k ==> s@[i + j] == pat@[j],
        decreases pat@.len() - k,
    {
        if s[i + k] != pat[k] {
            assert(s@.subrange(i as int, i + pat@.len())[k as int] != pat@[k as int]);
            return false;
        }
        k = k + 1;
    }
    assert(s@.subrange(i as int, i + pat@.len()) =~= pat@);
    true
}

/// The leftmost position, at or after `from`, at which `pat` occurs in `s`.
/// The position is counted from the start of `s`.
pub fn find_from(s: &Vec<char>, from: usize, pat: &Vec<char>) -> (r: Option<usize>)
    requires
        from <= s@.len(),
    ensures
        r matches Some(i) ==> find(s@.subrange(from as int, s@.len() as int), pat@) == Some(
            i - from,
        ),
        r matches Some(i) ==> from <= i && i + pat@.len() <= s@.len(),
        r is None ==> find(s@.subrange(from as int, s@.len() as int), pat@) is None,
{
    let ghost rest = s@.subrange(from as int, s@.len() as int);
    if pat.len() > s.len() - from {
        assert forall|j: int| !occurs_at(rest, pat@, j) by {}
        proof { lemma_find_iff_contains(rest, pat@); }
        return None;
    }
    if pat.len() == 0 {
        assert(rest.subrange(0, 0) =~= pat@);
        assert(is_first_occurrence(rest, pat@, 0));
        proof {
            lemma_find_iff_contains(rest, pat@);
            lemma_first_occurrence_unique(rest, pat@, find(rest, pat@)->Some_0, 0);
        }
        return Some(from);
    }
    let n: usize = s.len();
    let last: usize = n - pat.len();
    let mut i: usize = from;
    while i <= last
        invariant
            n == s@.len(),
            pat@.len() > 0,
            from <= i,
            last == s@.len() - pat@.len(),
            rest == s@.subrange(from as int, s@.len() as int),
            forall|j: int| 0 <= j < i - from ==> !occurs_at(rest, pat@, j),
        decreases last + 1 - i,
    {
        let m = matches_at(s, i, pat);
        assert(rest.subrange(i - from, i - from + pat@.len()) =~= s@.subrange(
            i as int,
            i + pat@.len(),
        ));
        if m {
            assert(is_first_occurrence(rest, pat@, i - from));
            proof {
                lemma_find_iff_contains(rest, pat@);
                let k = find(rest, pat@)->Some_0;
                lemma_first_occurrence_unique(rest, pat@, k, i - from);
            }
            return Some(i);
        }
        i = i + 1;
    }
    assert forall|j: int| !occurs_at(rest, pat@, j) by {
        if 0 <= j < i - from {
        }
    }
    proof { lemma_find_iff_contains(rest, pat@); }
    None
}

/// Where the value that follows `marker` lies in `line`: the start and end
/// positions of the text between the marker and the next double quote.
pub fn locate_value(line: &Vec<char>, marker: &Vec<char>) -> (r: Option<(usize, usize)>)
    ensures
        r matches Some((a, b)) ==> a <= b <= line@.len() && value_after(line@, marker@) == Some(
            line@.subrange(a as int, b as int),
        ),
        r is None ==> value_after(line@, marker@) is None,
{
    let q: Vec<char> = vec!['"'];
    assert(q@ =~= quote());
    let n: usize = line.len();
    assert(line@.subrange(0, line@.len() as int) =~= line@);
    match find_from(line, 0, marker) {
        None => None,
        Some(i) => {
            let start: usize = i + marker.len();
            let ghost rest = line@.subrange(start as int, line@.len() as int);
            match find_from(line, start, &q) {
                None => None,
                Some(e) => {
                    assert(rest.subrange(0, e - start) =~= line@.subrange(start as int, e as int));
                    Some((start, e))
                },
            }
        },
    }
}

} // verus!
