use vstd::prelude::*;

verus! {

/// One character of a rendered target, tagged by whether it belongs to a match.
#[derive(Debug, Clone, Copy, PartialEq, Eq, Structural)]
pub enum Fragment {
    Highlighted(char),
    Normal(char),
}

impl Fragment {
    /// The character that the fragment wraps, whatever its tag.
    pub open spec fn ch(self) -> char {
        match self {
            Fragment::Highlighted(c) => c,
            Fragment::Normal(c) => c,
        }
    }
}

/// Why a highlight could not be computed.
#[derive(Debug, Clone, Copy, PartialEq, Eq, Structural)]
pub enum HighlightError {
    /// The query is empty, so there is no character to anchor a match on.
    InvalidQuery,
}

/// The punctuation that may stand anywhere inside a match without breaking it.
pub open spec fn separator(c: char) -> bool {
    c == '-' || c == '/' || c == '.' || c == ','
}

/// Whether `c` is a separator.
pub fn is_separator(c: char) -> (r: bool)
    ensures
        r == separator(c),
{
    c == '-' || c == '/' || c == '.' || c == ','
}

/// Whether `c` is an ASCII capital letter.
pub open spec fn is_ascii_upper(c: char) -> bool {
    'A' <= c <= 'Z'
}

/// ASCII lower case of `c`; every other character is left as it is.
pub open spec fn ascii_lower(c: char) -> char {
    if is_ascii_upper(c) {
        ((c as u32) + 32) as char
    } else {
        c
    }
}

/// ASCII case-insensitive equality of two characters.
pub open spec fn same_letter(a: char, b: char) -> bool {
    ascii_lower(a) == ascii_lower(b)
}

/// Whether `a` and `b` are equal up to ASCII case.
pub fn eq_ignore_ascii_case(a: char, b: char) -> (r: bool)
    ensures
        r == same_letter(a, b),
{
    let x: u32 = if 'A' <= a && a <= 'Z' { a as u32 + 32 } else { a as u32 };
    let y: u32 = if 'A' <= b && b <= 'Z' { b as u32 + 32 } else { b as u32 };
    x == y
}

/// The fragments of the match run that satisfies all of `q` by walking `t` forward
/// from index `j`: a character equal to the current query character up to ASCII
/// case is highlighted and satisfies it, a separator is skipped and stays normal,
/// anything else, or the end of `t`, fails the run (`None`).
pub open spec fn match_run(q: Seq<char>, t: Seq<char>, j: int) -> Option<Seq<Fragment>>
    decreases t.len() - j,
{
    if q.len() == 0 {
        Some(Seq::empty())
    } else if j < 0 || j >= t.len() {
        None
    } else if same_letter(t[j], q[0]) {
        match match_run(q.drop_first(), t, j + 1) {
            Some(r) => Some(seq![Fragment::Highlighted(t[j])] + r),
            None => None,
        }
    } else if separator(t[j]) {
        match match_run(q, t, j + 1) {
            Some(r) => Some(seq![Fragment::Normal(t[j])] + r),
            None => None,
        }
    } else {
        None
    }
}

/// Whether a full match of `q` can begin at index `j` of `t`.
pub open spec fn can_match_at(q: Seq<char>, t: Seq<char>, j: int) -> bool {
    match_run(q, t, j) is Some
}

/// The run that the scanner commits to at index `i`: one is started only where
/// `t[i]` equals the query's first character and the whole query can be matched.
pub open spec fn run_at(q: Seq<char>, t: Seq<char>, i: int) -> Option<Seq<Fragment>> {
    if q.len() > 0 && 0 <= i < t.len() && same_letter(t[i], q[0]) {
        match_run(q, t, i)
    } else {
        None
    }
}

/// A match run covers the characters of `t` from `j` on, one fragment each, and
/// is at least as long as the query.
pub proof fn lemma_match_run(q: Seq<char>, t: Seq<char>, j: int)
    requires
        can_match_at(q, t, j),
    ensures
        q.len() <= match_run(q, t, j)->0.len(),
        q.len() > 0 ==> 0 <= j && j + match_run(q, t, j)->0.len() <= t.len(),
        forall|k: int|
            0 <= k < match_run(q, t, j)->0.len() ==> (#[trigger] match_run(q, t, j)->0[k]).ch()
                == t[j + k],
    decreases t.len() - j,
{
    if q.len() > 0 {
        if same_letter(t[j], q[0]) {
            lemma_match_run(q.drop_first(), t, j + 1);
        } else {
            lemma_match_run(q, t, j + 1);
        }
    }
}

/// The fragments that the scanner emits for `t[i..]` under query `q`.
pub open spec fn highlight_from(q: Seq<char>, t: Seq<char>, i: int) -> Seq<Fragment>
    decreases t.len() - i,
{
    if i < 0 || i >= t.len() {
        Seq::empty()
    } else {
        match run_at(q, t, i) {
            Some(r) => {
                proof {
                    lemma_match_run(q, t, i);
                }
                r + highlight_from(q, t, i + r.len())
            },
            None => seq![Fragment::Normal(t[i])] + highlight_from(q, t, i + 1),
        }
    }
}

/// The rendering of the whole of `t` under query `q`.
pub open spec fn highlighted(q: Seq<char>, t: Seq<char>) -> Seq<Fragment> {
    highlight_from(q, t, 0)
}

/// The characters of `s`, in order.
fn chars_of(s: &str) -> (r: Vec<char>)
    ensures
        r@ == s@,
{
    let mut r: Vec<char> = Vec::new();
    for c in it: s.chars()
        invariant
            it.seq() == s@,
            r@ == it.seq().take(it.index() as int),
    {
        r.push(c);
    }
    r
}

/// Whether a full match of `q` can begin at index `start` of `t`.
fn probe(q: &Vec<char>, t: &Vec<char>, start: usize) -> (r: bool)
    requires
        q.len() > 0,
    ensures
        r == can_match_at(q@, t@, start as int),
{
    let mut k: usize = 0;
    let mut j: usize = start;
    assert(q@.skip(0) =~= q@);
    while k < q.len()
        invariant
            k <= q.len(),
            can_match_at(q@.skip(k as int), t@, j as int) == can_match_at(q@, t@, start as int),
        decreases t.len() - j,
    {
        if j >= t.len() {
            return false;
        }
        if eq_ignore_ascii_case(t[j], q[k]) {
            assert(q@.skip(k as int).drop_first() =~= q@.skip(k + 1));
            k = k + 1;
        } else if !is_separator(t[j]) {
            return false;
        }
        j = j + 1;
    }
    true
}

/// The fragments of `t` under query `q`.
fn scan(q: &Vec<char>, t: &Vec<char>) -> (r: Vec<Fragment>)
    requires
        q.len() > 0,
    ensures
        r@ == highlighted(q@, t@),
{
    let mut out: Vec<Fragment> = Vec::new();
    let mut i: usize = 0;
    while i < t.len()
        invariant
            q.len() > 0,
            i <= t.len(),
            out@ + highlight_from(q@, t@, i as int) == highlighted(q@, t@),
        decreases t.len() - i,
    {
        if eq_ignore_ascii_case(t[i], q[0]) && probe(q, t, i) {
            let ghost before = out@;
            let ghost run = match_run(q@, t@, i as int)->0;
            proof {
                lemma_match_run(q@, t@, i as int);
                assert(q@.skip(0) =~= q@);
            }
            let mut k: usize = 0;
            let mut j: usize = i;
            while k < q.len()
                invariant
                    k <= q.len(),
                    i <= j,
                    can_match_at(q@.skip(k as int), t@, j as int),
                    out@ + match_run(q@.skip(k as int), t@, j as int)->0 == before + run,
                    out@.len() == before.len() + (j - i),
                decreases t.len() - j,
            {
                let ghost rest = match_run(q@.skip(k as int), t@, j as int)->0;
                let c = t[j];
                if eq_ignore_ascii_case(c, q[k]) {
                    assert(q@.skip(k as int).drop_first() =~= q@.skip(k + 1));
                    out.push(Fragment::Highlighted(c));
                    k = k + 1;
                } else {
                    out.push(Fragment::Normal(c));
                }
                j = j + 1;
                assert(out@ + match_run(q@.skip(k as int), t@, j as int)->0 =~= before + run) by {
                    assert(rest =~= seq![out@.last()] + match_run(q@.skip(k as int), t@, j as int)->0);
                }
            }
            assert(out@ =~= before + run);
            i = j;
        } else {
            out.push(Fragment::Normal(t[i]));
            i = i + 1;
        }
    }
    assert(out@ =~= highlighted(q@, t@));
    out
}

/// Whether a full match of `search_query` can begin at character index `n` of
/// `mpn`, skipping separators of `mpn` and comparing up to ASCII case.
pub fn is_start_of_highlight(search_query: &str, mpn: &str, n: usize) -> (r: bool)
    requires
        search_query@.len() > 0,
    ensures
        r == can_match_at(search_query@, mpn@, n as int),
{
    let q = chars_of(search_query);
    let t = chars_of(mpn);
    probe(&q, &t, n)
}

/// What highlighting `t` under query `q` yields: an error for an empty query,
/// else the scanner's fragments.
pub open spec fn highlight_outcome(q: Seq<char>, t: Seq<char>) -> Result<
    Seq<Fragment>,
    HighlightError,
> {
    if q.len() == 0 {
        Err(HighlightError::InvalidQuery)
    } else {
        Ok(highlighted(q, t))
    }
}

/// The outcome of a call, viewed as mathematical values.
pub open spec fn outcome_view(r: Result<Vec<Fragment>, HighlightError>) -> Result<
    Seq<Fragment>,
    HighlightError,
> {
    match r {
        Ok(v) => Ok(v@),
        Err(e) => Err(e),
    }
}

/// The characters that a fragment sequence wraps, tags dropped.
pub open spec fn text_of(f: Seq<Fragment>) -> Seq<char> {
    f.map_values(|x: Fragment| x.ch())
}

/// Renders `mpn` as fragments, highlighting the leftmost non-overlapping matches
/// of `search_query`; fails with `InvalidQuery` when the query is empty.
pub fn highlight_search_query_in_mpn(search_query: &str, mpn: &str) -> (r: Result<
    Vec<Fragment>,
    HighlightError,
>)
    ensures
        outcome_view(r) == highlight_outcome(search_query@, mpn@),
        r matches Ok(v) ==> text_of(v@) == mpn@,
{
    let q = chars_of(search_query);
    if q.len() == 0 {
        return Err(HighlightError::InvalidQuery);
    }
    let t = chars_of(mpn);
    let v = scan(&q, &t);
    proof {
        lemma_coverage(q@, t@);
    }
    Ok(v)
}

proof fn lemma_text_concat(a: Seq<Fragment>, b: Seq<Fragment>)
    ensures
        text_of(a + b) == text_of(a) + text_of(b),
{
    assert(text_of(a + b) =~= text_of(a) + text_of(b));
}

proof fn lemma_step_normal(q: Seq<char>, t: Seq<char>, i: int)
    requires
        0 <= i < t.len(),
        run_at(q, t, i) is None,
    ensures
        highlight_from(q, t, i) == seq![Fragment::Normal(t[i])] + highlight_from(q, t, i + 1),
{
}

proof fn lemma_coverage_step(q: Seq<char>, t: Seq<char>, i: int, step: Seq<Fragment>)
    requires
        0 <= i,
        i + step.len() <= t.len(),
        highlight_from(q, t, i) == step + highlight_from(q, t, i + step.len()),
        text_of(step) == t.subrange(i, i + step.len()),
        text_of(highlight_from(q, t, i + step.len())) == t.skip(i + step.len()),
    ensures
        text_of(highlight_from(q, t, i)) == t.skip(i),
{
    lemma_text_concat(step, highlight_from(q, t, i + step.len()));
    assert(t.skip(i) =~= t.subrange(i, i + step.len()) + t.skip(i + step.len()));
}

proof fn lemma_coverage_from(q: Seq<char>, t: Seq<char>, i: int)
    requires
        0 <= i <= t.len(),
    ensures
        text_of(highlight_from(q, t, i)) == t.skip(i),
    decreases t.len() - i,
{
    if i < t.len() {
        if let Some(r) = run_at(q, t, i) {
            lemma_match_run(q, t, i);
            lemma_coverage_from(q, t, i + r.len());
            assert(text_of(r) =~= t.subrange(i, i + r.len()));
            lemma_coverage_step(q, t, i, r);
        } else {
            let head = seq![Fragment::Normal(t[i])];
            lemma_step_normal(q, t, i);
            lemma_coverage_from(q, t, i + 1);
            assert(text_of(head) =~= t.subrange(i, i + 1));
            lemma_coverage_step(q, t, i, head);
        }
    } else {
        assert(text_of(highlight_from(q, t, i)) =~= t.skip(i));
    }
}

/// Concatenating the characters of the fragments, in order, gives back the
/// target exactly: every character of it appears once, in its place.
pub proof fn lemma_coverage(q: Seq<char>, t: Seq<char>)
    requires
        q.len() > 0,
    ensures
        text_of(highlighted(q, t)) == t,
        highlighted(q, t).len() == t.len(),
{
    lemma_coverage_from(q, t, 0);
    assert(t.skip(0) =~= t);
}

/// `c` as a normal fragment.
pub open spec fn normal(c: char) -> Fragment {
    Fragment::Normal(c)
}

/// Each character of `s` as a normal fragment.
pub open spec fn all_normal(s: Seq<char>) -> Seq<Fragment> {
    s.map_values(|c: char| normal(c))
}

proof fn lemma_leftmost_from(q: Seq<char>, t: Seq<char>, i: int, first: int)
    requires
        0 <= i <= first < t.len(),
        forall|j: int| i <= j < first ==> !(#[trigger] run_at(q, t, j) is Some),
    ensures
        highlight_from(q, t, i) == all_normal(t.subrange(i, first)) + highlight_from(q, t, first),
    decreases first - i,
{
    if i < first {
        assert(!(run_at(q, t, i) is Some));
        lemma_step_normal(q, t, i);
        lemma_leftmost_from(q, t, i + 1, first);
        assert(all_normal(t.subrange(i, first)) =~= seq![Fragment::Normal(t[i])] + all_normal(
            t.subrange(i + 1, first),
        ));
    } else {
        assert(all_normal(t.subrange(i, first)) =~= Seq::<Fragment>::empty());
    }
    assert(highlight_from(q, t, i) =~= all_normal(t.subrange(i, first)) + highlight_from(
        q,
        t,
        first,
    ));
}

/// The scanner commits to the leftmost match: where `first` is the earliest
/// index at which a run can start, every character before it is normal and the
/// run found there follows, before the scan goes on past it.
pub proof fn lemma_leftmost_first(q: Seq<char>, t: Seq<char>, first: int)
    requires
        0 <= first < t.len(),
        run_at(q, t, first) is Some,
        forall|j: int| 0 <= j < first ==> !(#[trigger] run_at(q, t, j) is Some),
    ensures
        highlighted(q, t) == all_normal(t.take(first)) + run_at(q, t, first)->0 + highlight_from(
            q,
            t,
            first + run_at(q, t, first)->0.len(),
        ),
{
    lemma_leftmost_from(q, t, 0, first);
    assert(t.subrange(0, first) =~= t.take(first));
    lemma_match_run(q, t, first);
    let r = run_at(q, t, first)->0;
    assert(highlight_from(q, t, first) == r + highlight_from(q, t, first + r.len()));
    assert(all_normal(t.take(first)) + (r + highlight_from(q, t, first + r.len())) =~= all_normal(
        t.take(first),
    ) + r + highlight_from(q, t, first + r.len()));
}

proof fn lemma_no_match_from(q: Seq<char>, t: Seq<char>, i: int)
    requires
        0 <= i <= t.len(),
        forall|j: int| 0 <= j < t.len() ==> !(#[trigger] run_at(q, t, j) is Some),
    ensures
        highlight_from(q, t, i) == all_normal(t.skip(i)),
    decreases t.len() - i,
{
    if i < t.len() {
        assert(!(run_at(q, t, i) is Some));
        lemma_step_normal(q, t, i);
        lemma_no_match_from(q, t, i + 1);
        assert(all_normal(t.skip(i)) =~= seq![Fragment::Normal(t[i])] + all_normal(t.skip(i + 1)));
    } else {
        assert(all_normal(t.skip(i)) =~= Seq::<Fragment>::empty());
    }
    assert(highlight_from(q, t, i) =~= all_normal(t.skip(i)));
}

/// Where the query's first character never occurs in the target (up to ASCII
/// case), or no full match can begin anywhere in it, every fragment is normal.
pub proof fn lemma_no_match(q: Seq<char>, t: Seq<char>)
    requires
        q.len() > 0,
        (forall|j: int| 0 <= j < t.len() ==> !same_letter(#[trigger] t[j], q[0])) || (forall|
            j: int,
        |
            0 <= j < t.len() ==> !#[trigger] can_match_at(q, t, j)),
    ensures
        highlighted(q, t) == all_normal(t),
{
    assert forall|j: int| 0 <= j < t.len() implies !(#[trigger] run_at(q, t, j) is Some) by {
        if forall|j: int| 0 <= j < t.len() ==> !same_letter(#[trigger] t[j], q[0]) {
            assert(!same_letter(t[j], q[0]));
        } else {
            assert(!can_match_at(q, t, j));
        }
    }
    lemma_no_match_from(q, t, 0);
    assert(t.skip(0) =~= t);
}

/// Two runs on the same query and target give the same outcome: the outcome is
/// a function of the two strings alone.
pub proof fn lemma_repeatable(
    q: Seq<char>,
    t: Seq<char>,
    first: Result<Vec<Fragment>, HighlightError>,
    second: Result<Vec<Fragment>, HighlightError>,
)
    requires
        outcome_view(first) == highlight_outcome(q, t),
        outcome_view(second) == highlight_outcome(q, t),
    ensures
        outcome_view(first) == outcome_view(second),
{
}

} // verus!
