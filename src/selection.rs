//! The typed selector: a line such as `2 0-1 2` names positions in the
//! numbered list of matches, singly or as closed ranges.
use vstd::prelude::*;
use crate::filter::chars_of;

verus! {

/// One token of a selection line.
#[derive(Debug, Clone, Copy, PartialEq, Eq, Structural)]
pub enum Pick {
    /// One position.
    Single(usize),
    /// The positions from the first to the second, both included.
    Span(usize, usize),
}

/// Why a selection line was refused. Each carries the zero-based position
/// of the token at fault.
#[derive(Debug, Clone, Copy, PartialEq, Eq, Structural)]
pub enum SelectionError {
    /// The token is neither a number nor a range `A-B` with `A <= B`.
    Malformed(usize),
    /// The token names a position past the end of the list.
    OutOfRange(usize),
}

/// `c` is one of `0` to `9`.
pub open spec fn is_digit(c: char) -> bool {
    '0' <= c <= '9'
}

/// The value of the digit `c`.
pub open spec fn digit_value(c: char) -> nat {
    (c as u32 - '0' as u32) as nat
}

/// Every character of `t` is a decimal digit.
pub open spec fn all_digits(t: Seq<char>) -> bool {
    forall|i: int| 0 <= i < t.len() ==> is_digit(#[trigger] t[i])
}

/// The value of the decimal numeral `t`.
pub open spec fn digits_value(t: Seq<char>) -> nat
    decreases t.len(),
{
    if t.len() == 0 {
        0
    } else {
        digits_value(t.drop_last()) * 10 + digit_value(t.last())
    }
}

/// The number that `t` spells: one or more digits, of a value that fits
/// in `usize`.
pub open spec fn number_of(t: Seq<char>) -> Option<nat> {
    if t.len() > 0 && all_digits(t) && digits_value(t) <= usize::MAX {
        Some(digits_value(t))
    } else {
        None
    }
}

proof fn lemma_value_prefix(t: Seq<char>, j: int)
    requires
        all_digits(t),
        0 <= j <= t.len(),
    ensures
        digits_value(t.take(j)) <= digits_value(t),
    decreases t.len(),
{
    if j < t.len() {
        let d = t.drop_last();
        assert(d.take(j) =~= t.take(j));
        lemma_value_prefix(d, j);
    } else {
        assert(t.take(j) =~= t);
    }
}

/// The number spelt by `text[start..end]`.
fn parse_number(text: &Vec<char>, start: usize, end: usize) -> (r: Option<usize>)
    requires
        start <= end <= text@.len(),
    ensures
        match number_of(text@.subrange(start as int, end as int)) {
            Some(v) => r == Some(v as usize),
            None => r is None,
        },
{
    let ghost t = text@.subrange(start as int, end as int);
    if start == end {
        return None;
    }
    let mut acc: usize = 0;
    let mut i: usize = start;
    while i < end
        invariant
            start <= i <= end <= text@.len(),
            t == text@.subrange(start as int, end as int),
            all_digits(t.take(i - start)),
            acc == digits_value(t.take(i - start)),
        decreases end - i,
    {
        let c = text[i];
        assert(t[i - start] == c);
        if !('0' <= c && c <= '9') {
            return None;
        }
        let d = (c as u32 - '0' as u32) as usize;
        assert(t.take(i - start + 1).drop_last() =~= t.take(i - start));
        match acc.checked_mul(10) {
            None => {
                proof {
                    if all_digits(t) {
                        lemma_value_prefix(t, i - start + 1);
                    }
                }
                return None;
            },
            Some(m) => match m.checked_add(d) {
                None => {
                    proof {
                        if all_digits(t) {
                            lemma_value_prefix(t, i - start + 1);
                        }
                    }
                    return None;
                },
                Some(v) => {
                    acc = v;
                },
            },
        }
        i = i + 1;
    }
    assert(t.take(end - start) =~= t);
    Some(acc)
}

/// The position of the first `-` in `t`, or -1 where there is none.
pub open spec fn first_dash(t: Seq<char>) -> int
    decreases t.len(),
{
    if t.len() == 0 {
        -1
    } else if first_dash(t.drop_last()) >= 0 {
        first_dash(t.drop_last())
    } else if t.last() == '-' {
        t.len() - 1
    } else {
        -1
    }
}

/// What the token `t` asks for: a number, or two numbers joined by one `-`
/// with the first no larger than the second.
pub open spec fn pick_of(t: Seq<char>) -> Option<Pick> {
    let d = first_dash(t);
    if d < 0 {
        match number_of(t) {
            Some(n) => Some(Pick::Single(n as usize)),
            None => None,
        }
    } else {
        match (number_of(t.take(d)), number_of(t.skip(d + 1))) {
            (Some(a), Some(b)) => if a <= b {
                Some(Pick::Span(a as usize, b as usize))
            } else {
                None
            },
            _ => None,
        }
    }
}

proof fn lemma_no_dash(t: Seq<char>)
    requires
        forall|i: int| 0 <= i < t.len() ==> t[i] != '-',
    ensures
        first_dash(t) == -1,
    decreases t.len(),
{
    if t.len() > 0 {
        lemma_no_dash(t.drop_last());
    }
}

proof fn lemma_first_dash(t: Seq<char>, j: int)
    requires
        0 <= j < t.len(),
        t[j] == '-',
        forall|i: int| 0 <= i < j ==> t[i] != '-',
    ensures
        first_dash(t) == j,
    decreases t.len(),
{
    if j == t.len() - 1 {
        lemma_no_dash(t.drop_last());
    } else {
        lemma_first_dash(t.drop_last(), j);
    }
}

/// The pick that the token `text[start..end]` asks for.
fn parse_pick(text: &Vec<char>, start: usize, end: usize) -> (r: Option<Pick>)
    requires
        start <= end <= text@.len(),
    ensures
        r == pick_of(text@.subrange(start as int, end as int)),
{
    let ghost t = text@.subrange(start as int, end as int);
    let mut i: usize = start;
    while i < end
        invariant
            start <= i <= end <= text@.len(),
            t == text@.subrange(start as int, end as int),
            forall|k: int| 0 <= k < i - start ==> t[k] != '-',
        decreases end - i,
    {
        if text[i] == '-' {
            proof {
                lemma_first_dash(t, i - start);
                assert(t.take(i - start) =~= text@.subrange(start as int, i as int));
                assert(t.skip(i - start + 1) =~= text@.subrange(i + 1, end as int));
            }
            let a = parse_number(text, start, i);
            let b = parse_number(text, i + 1, end);
            return match (a, b) {
                (Some(a), Some(b)) => if a <= b {
                    Some(Pick::Span(a, b))
                } else {
                    None
                },
                _ => None,
            };
        }
        i = i + 1;
    }
    proof {
        lemma_no_dash(t);
    }
    match parse_number(text, start, end) {
        Some(n) => Some(Pick::Single(n)),
        None => None,
    }
}

/// The tokens of `s` between single spaces. Two spaces in a row leave an
/// empty token between them, and an empty line is one empty token.
pub open spec fn split_spaces(s: Seq<char>) -> Seq<Seq<char>>
    decreases s.len(),
{
    if s.len() == 0 {
        seq![Seq::<char>::empty()]
    } else {
        let t = split_spaces(s.drop_last());
        if s.last() == ' ' {
            t.push(Seq::<char>::empty())
        } else {
            t.update(t.len() - 1, t.last().push(s.last()))
        }
    }
}

/// The picks that `tokens` ask for, or the position of the first token
/// that asks for none.
pub open spec fn picks_of(tokens: Seq<Seq<char>>) -> Result<Seq<Pick>, int>
    decreases tokens.len(),
{
    if tokens.len() == 0 {
        Ok(seq![])
    } else {
        match picks_of(tokens.drop_last()) {
            Err(k) => Err(k),
            Ok(ps) => match pick_of(tokens.last()) {
                Some(p) => Ok(ps.push(p)),
                None => Err(tokens.len() - 1),
            },
        }
    }
}

proof fn lemma_split_nonempty(s: Seq<char>)
    ensures
        split_spaces(s).len() >= 1,
    decreases s.len(),
{
    if s.len() > 0 {
        lemma_split_nonempty(s.drop_last());
    }
}

/// The picks that the line asks for, token by token.
pub fn parse_picks(line: &str) -> (r: Result<Vec<Pick>, SelectionError>)
    ensures
        match picks_of(split_spaces(line@)) {
            Ok(ps) => r matches Ok(v) && v@ == ps,
            Err(k) => r == Err::<Vec<Pick>, SelectionError>(SelectionError::Malformed(k as usize)),
        },
{
    let text = chars_of(line);
    let n = text.len();
    let mut picks: Vec<Pick> = Vec::new();
    let mut bad: Option<usize> = None;
    let mut count: usize = 0;
    let mut start: usize = 0;
    let ghost mut closed: Seq<Seq<char>> = seq![];
    let mut i: usize = 0;
    assert(text@.take(0) =~= Seq::<char>::empty());
    assert(text@.subrange(0, 0) =~= Seq::<char>::empty());
    loop
        invariant
            text@ == line@,
            n == text@.len(),
            start <= i <= n,
            count == closed.len(),
            count <= i,
            split_spaces(text@.take(i as int)) == closed.push(text@.subrange(start as int, i as int)),
            match picks_of(closed) {
                Ok(ps) => bad is None && picks@ == ps,
                Err(k) => bad == Some(k as usize) && 0 <= k,
            },
        decreases n - i,
    {
        let at_end = i == n;
        if at_end || text[i] == ' ' {
            let ghost tok = text@.subrange(start as int, i as int);
            if bad.is_none() {
                match parse_pick(&text, start, i) {
                    Some(p) => {
                        picks.push(p);
                    },
                    None => {
                        bad = Some(count);
                    },
                }
            }
            proof {
                let c2 = closed.push(tok);
                assert(c2.drop_last() =~= closed);
                closed = c2;
            }
            if at_end {
                assert(text@.take(i as int) =~= text@);
                assert(split_spaces(line@) == closed);
                return match bad {
                    Some(k) => Err(SelectionError::Malformed(k)),
                    None => Ok(picks),
                };
            }
            count = count + 1;
            start = i + 1;
        }
        proof {
            let s1 = text@.take(i + 1);
            assert(s1.drop_last() =~= text@.take(i as int));
            lemma_split_nonempty(text@.take(i as int));
            if text@[i as int] == ' ' {
                assert(text@.subrange(start as int, i + 1) =~= Seq::<char>::empty());
            } else {
                assert(text@.subrange(start as int, i + 1) =~= text@.subrange(start as int, i as int).push(
                    text@[i as int],
                ));
            }
        }
        i = i + 1;
    }
}

/// The pick names only positions below `count`.
pub open spec fn pick_in_range(p: Pick, count: nat) -> bool {
    match p {
        Pick::Single(n) => n < count,
        Pick::Span(_, b) => b < count,
    }
}

/// The position of the first pick that reaches past `count`.
pub open spec fn first_out_of_range(ps: Seq<Pick>, count: nat) -> Option<int>
    decreases ps.len(),
{
    if ps.len() == 0 {
        None
    } else {
        match first_out_of_range(ps.drop_last(), count) {
            Some(k) => Some(k),
            None => if pick_in_range(ps.last(), count) {
                None
            } else {
                Some(ps.len() - 1)
            },
        }
    }
}

/// The positions that one pick names, in increasing order.
pub open spec fn pick_indices(p: Pick) -> Seq<usize> {
    match p {
        Pick::Single(n) => seq![n],
        Pick::Span(a, b) => Seq::new((b - a + 1) as nat, |i: int| (a + i) as usize),
    }
}

/// The positions that the picks name, pick after pick, repeats kept.
pub open spec fn indices_of(ps: Seq<Pick>) -> Seq<usize>
    decreases ps.len(),
{
    if ps.len() == 0 {
        seq![]
    } else {
        indices_of(ps.drop_last()) + pick_indices(ps.last())
    }
}

/// What the line selects from a list of `count` entries: the positions
/// it names, or why it is refused. A malformed token is reported before
/// any position out of range.
pub open spec fn selection_of(line: Seq<char>, count: nat) -> Result<Seq<usize>, SelectionError> {
    match picks_of(split_spaces(line)) {
        Err(k) => Err(SelectionError::Malformed(k as usize)),
        Ok(ps) => match first_out_of_range(ps, count) {
            Some(k) => Err(SelectionError::OutOfRange(k as usize)),
            None => Ok(indices_of(ps)),
        },
    }
}

/// The positions that the line names in a list of `count` entries.
pub fn selected_indices(line: &str, count: usize) -> (r: Result<Vec<usize>, SelectionError>)
    ensures
        match selection_of(line@, count as nat) {
            Ok(ix) => r matches Ok(v) && v@ == ix,
            Err(e) => r == Err::<Vec<usize>, SelectionError>(e),
        },
        r matches Ok(v) ==> forall|j: int| 0 <= j < v@.len() ==> v@[j] < count,
{
    let picks = parse_picks(line)?;
    let mut out: Vec<usize> = Vec::new();
    let mut k: usize = 0;
    while k < picks.len()
        invariant
            picks_of(split_spaces(line@)) == Ok::<Seq<Pick>, int>(picks@),
            k <= picks@.len(),
            first_out_of_range(picks@.take(k as int), count as nat) is None,
            out@ == indices_of(picks@.take(k as int)),
            forall|j: int| 0 <= j < out@.len() ==> out@[j] < count,
        decreases picks@.len() - k,
    {
        let ghost ps1 = picks@.take(k + 1);
        assert(ps1.drop_last() =~= picks@.take(k as int));
        match picks[k] {
            Pick::Single(n) => {
                if n >= count {
                    proof {
                        lemma_out_of_range_prefix(picks@, k + 1, count as nat);
                    }
                    return Err(SelectionError::OutOfRange(k));
                }
                out.push(n);
                assert(out@ =~= indices_of(ps1));
            },
            Pick::Span(a, b) => {
                if b >= count {
                    proof {
                        lemma_out_of_range_prefix(picks@, k + 1, count as nat);
                    }
                    return Err(SelectionError::OutOfRange(k));
                }
                proof {
                    lemma_picks_well_formed(split_spaces(line@), k as int);
                }
                let ghost before = out@;
                let mut j: usize = a;
                while j <= b
                    invariant
                        a <= b < count,
                        a <= j <= b + 1,
                        out@ == before + Seq::new((j - a) as nat, |i: int| (a + i) as usize),
                        forall|i: int| 0 <= i < out@.len() ==> out@[i] < count,
                    decreases b + 1 - j,
                {
                    out.push(j);
                    assert(out@ =~= before + Seq::new((j + 1 - a) as nat, |i: int| (a + i) as usize));
                    j = j + 1;
                }
                assert(out@ =~= indices_of(ps1));
            },
        }
        k = k + 1;
    }
    assert(picks@.take(picks@.len() as int) =~= picks@);
    Ok(out)
}

proof fn lemma_out_of_range_prefix(ps: Seq<Pick>, j: int, count: nat)
    requires
        0 < j <= ps.len(),
        first_out_of_range(ps.take(j - 1), count) is None,
        !pick_in_range(ps[j - 1], count),
    ensures
        first_out_of_range(ps, count) == Some(j - 1),
    decreases ps.len(),
{
    assert(ps.take(j).drop_last() =~= ps.take(j - 1));
    if j < ps.len() {
        assert(ps.drop_last().take(j) =~= ps.take(j));
        assert(ps.drop_last().take(j - 1) =~= ps.take(j - 1));
        lemma_out_of_range_prefix(ps.drop_last(), j, count);
    } else {
        assert(ps.take(j) =~= ps);
        assert(ps.drop_last() =~= ps.take(j - 1));
    }
}

/// Every span that parsing yields runs upward.
proof fn lemma_picks_well_formed(tokens: Seq<Seq<char>>, k: int)
    requires
        picks_of(tokens) is Ok,
        0 <= k < picks_of(tokens)->Ok_0.len(),
    ensures
        picks_of(tokens)->Ok_0[k] matches Pick::Span(a, b) ==> a <= b,
    decreases tokens.len(),
{
    let ps = picks_of(tokens)->Ok_0;
    if k < ps.len() - 1 {
        lemma_picks_well_formed(tokens.drop_last(), k);
    }
}

/// The typed selector: the entries of `matches` at the positions that the
/// line names, in the order and with the repeats of the line.
pub fn select_by_numbers(matches: &Vec<String>, line: &str) -> (r: Result<Vec<String>, SelectionError>)
    ensures
        match selection_of(line@, matches@.len()) {
            Ok(ix) => r matches Ok(v) && v@.map_values(|s: String| s@) == ix.map_values(
                |i: usize| matches@[i as int]@,
            ),
            Err(e) => r == Err::<Vec<String>, SelectionError>(e),
        },
{
    let ix = selected_indices(line, matches.len())?;
    let mut out: Vec<String> = Vec::new();
    let mut k: usize = 0;
    while k < ix.len()
        invariant
            forall|j: int| 0 <= j < ix@.len() ==> ix@[j] < matches@.len(),
            k <= ix@.len(),
            out@.map_values(|s: String| s@) == ix@.take(k as int).map_values(
                |i: usize| matches@[i as int]@,
            ),
        decreases ix@.len() - k,
    {
        let s = matches[ix[k]].clone();
        let ghost before = out@;
        out.push(s);
        assert(out@.map_values(|s: String| s@) =~= before.map_values(|s: String| s@).push(
            matches@[ix@[k as int] as int]@,
        ));
        assert(ix@.take(k + 1) =~= ix@.take(k as int).push(ix@[k as int]));
        k = k + 1;
        assert(out@.map_values(|s: String| s@) =~= ix@.take(k as int).map_values(
            |i: usize| matches@[i as int]@,
        ));
    }
    assert(ix@.take(ix@.len() as int) =~= ix@);
    Ok(out)
}

} // verus!
