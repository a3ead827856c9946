//! The query matcher: which entry names a query selects.
use vstd::prelude::*;
use crate::archive::{Archive, ArchiveError};

verus! {

/// `word` stands in `text` starting at character position `p`.
pub open spec fn occurs_at(text: Seq<char>, word: Seq<char>, p: int) -> bool {
    &&& 0 <= p
    &&& p + word.len() <= text.len()
    &&& text.subrange(p, p + word.len()) == word
}

/// `word` is a substring of `text`.
pub open spec fn contains_word(text: Seq<char>, word: Seq<char>) -> bool {
    exists|p: int| occurs_at(text, word, p)
}

/// Positions `ps` place each of `words` in `text`, in query order and at
/// non-decreasing positions.
pub open spec fn ordered_placement(
    text: Seq<char>,
    words: Seq<Seq<char>>,
    ps: Seq<int>,
) -> bool {
    &&& ps.len() == words.len()
    &&& forall|i: int| 0 <= i < words.len() ==> occurs_at(text, #[trigger] words[i], ps[i])
    &&& forall|i: int| 0 < i < words.len() ==> ps[i - 1] <= #[trigger] ps[i]
}

/// Every word stands in `text`, each one at or after the one before it.
pub open spec fn matches_in_order(text: Seq<char>, words: Seq<Seq<char>>) -> bool {
    exists|ps: Seq<int>| ordered_placement(text, words, ps)
}

/// Every word stands somewhere in `text`.
pub open spec fn matches_all(text: Seq<char>, words: Seq<Seq<char>>) -> bool {
    forall|i: int| 0 <= i < words.len() ==> contains_word(text, #[trigger] words[i])
}

/// At least one word stands somewhere in `text`.
pub open spec fn matches_any(text: Seq<char>, words: Seq<Seq<char>>) -> bool {
    exists|i: int| 0 <= i < words.len() && contains_word(text, #[trigger] words[i])
}

/// The names that `f` accepts, in their order: the numbered list the
/// operator chooses from.
pub open spec fn match_set(f: Filter, names: Seq<Seq<char>>) -> Seq<Seq<char>> {
    names.filter(|n: Seq<char>| f.accepts(n))
}

/// A query: its words and the two flags that say how they must match.
#[derive(Debug)]
pub struct Filter {
    any: bool,
    ordered: bool,
    query: Vec<String>,
}

impl Filter {
    /// One matching word is enough.
    pub closed spec fn any_mode(&self) -> bool {
        self.any
    }

    /// The words must come in query order.
    pub closed spec fn ordered_mode(&self) -> bool {
        self.ordered
    }

    /// The query words.
    pub closed spec fn words(&self) -> Seq<Seq<char>> {
        self.query@.map_values(|w: String| w@)
    }

    /// Whether `name` satisfies this query. With `any` the order flag is
    /// ignored.
    pub open spec fn accepts(&self, name: Seq<char>) -> bool {
        if self.any_mode() {
            matches_any(name, self.words())
        } else if self.ordered_mode() {
            matches_in_order(name, self.words())
        } else {
            matches_all(name, self.words())
        }
    }

    /// A query of `query`'s words: with `any`, one of them must match;
    /// otherwise all must, and with `ordered` in query order.
    pub fn new(any: bool, ordered: bool, query: Vec<String>) -> (f: Filter)
        ensures
            f.any_mode() == any,
            f.ordered_mode() == ordered,
            f.words() == query@.map_values(|w: String| w@),
    {
        Filter { any, ordered, query }
    }

    /// Whether the entry name `string` satisfies the query.
    pub fn matches(&self, string: &str) -> (r: bool)
        ensures
            r == self.accepts(string@),
    {
        if self.any {
            self.anymatch(string)
        } else {
            self.fuzzymatch(string)
        }
    }

    /// All-match: each word is searched from a cursor, which stays at the
    /// start of the name when unordered and moves to the last match when
    /// ordered.
    fn fuzzymatch(&self, string: &str) -> (r: bool)
        ensures
            r == if self.ordered_mode() {
                matches_in_order(string@, self.words())
            } else {
                matches_all(string@, self.words())
            },
    {
        let text = chars_of(string);
        let ghost words = self.words();
        let mut idx: usize = 0;
        let mut k: usize = 0;
        let ghost mut ps: Seq<int> = seq![];
        while k < self.query.len()
            invariant
                text@ == string@,
                words == self.words(),
                k <= words.len(),
                idx <= text@.len(),
                !self.ordered ==> idx == 0,
                !self.ordered ==> forall|i: int| 0 <= i < k ==> contains_word(text@, #[trigger] words[i]),
                self.ordered ==> ordered_placement(text@, words.take(k as int), ps),
                self.ordered && k > 0 ==> ps.last() == idx,
                self.ordered && k == 0 ==> idx == 0,
                self.ordered && k > 0 ==> forall|qs: Seq<int>|
                    #[trigger] ordered_placement(text@, words.take(k as int), qs) ==> idx <= qs[k - 1],
            decreases words.len() - k,
        {
            let word = chars_of(self.query[k].as_str());
            assert(word@ == words[k as int]);
            match find_from(&text, &word, idx) {
                Some(p) => {
                    if self.ordered {
                        proof {
                            let ws1 = words.take(k + 1);
                            assert(ws1.take(k as int) =~= words.take(k as int));
                            let old_ps = ps;
                            ps = ps.push(p as int);
                            assert(ordered_placement(text@, ws1, ps)) by {
                                assert forall|i: int| 0 <= i < ws1.len() implies occurs_at(text@, #[trigger] ws1[i], ps[i]) by {
                                    if i < k {
                                        assert(ws1[i] == words.take(k as int)[i]);
                                    }
                                }
                            }
                            assert forall|qs: Seq<int>| #[trigger] ordered_placement(text@, ws1, qs) implies p <= qs[k as int] by {
                                let qs0 = qs.take(k as int);
                                assert(ordered_placement(text@, words.take(k as int), qs0)) by {
                                    assert forall|i: int| 0 <= i < k implies occurs_at(text@, #[trigger] words.take(k as int)[i], qs0[i]) by {
                                        assert(ws1[i] == words.take(k as int)[i]);
                                    }
                                    assert forall|i: int| 0 < i < k implies qs0[i - 1] <= #[trigger] qs0[i] by {
                                        assert(qs[i - 1] <= qs[i]);
                                    }
                                }
                                if k > 0 {
                                    assert(qs[k - 1] <= qs[k as int]);
                                }
                                assert(ws1[k as int] == word@);
                                assert(occurs_at(text@, word@, qs[k as int]));
                            }
                        }
                        idx = p;
                    } else {
                        idx = 0;
                    }
                },
                None => {
                    proof {
                        if self.ordered {
                            assert forall|qs: Seq<int>| !ordered_placement(text@, words, qs) by {
                                if ordered_placement(text@, words, qs) {
                                    let qs0 = qs.take(k as int);
                                    assert(ordered_placement(text@, words.take(k as int), qs0)) by {
                                        assert forall|i: int| 0 <= i < k implies occurs_at(text@, #[trigger] words.take(k as int)[i], qs0[i]) by {
                                            assert(words[i] == words.take(k as int)[i]);
                                        }
                                        assert forall|i: int| 0 < i < k implies qs0[i - 1] <= #[trigger] qs0[i] by {
                                            assert(qs[i - 1] <= qs[i]);
                                        }
                                    }
                                    if k > 0 {
                                        assert(qs[k - 1] <= qs[k as int]);
                                    }
                                    assert(occurs_at(text@, words[k as int], qs[k as int]));
                                }
                            }
                        } else {
                            assert(!contains_word(text@, words[k as int]));
                        }
                    }
                    return false;
                },
            }
            k = k + 1;
        }
        proof {
            assert(words.take(k as int) =~= words);
        }
        true
    }

    /// The names of `archive` that this query accepts, in the archive's
    /// order; `None` where there are none.
    pub fn filter_zip_by_name(&self, archive: &mut Archive) -> (r: Result<
        Option<Vec<String>>,
        ArchiveError,
    >)
        ensures
            final(archive).names() == old(archive).names(),
            final(archive).contents() == old(archive).contents(),
            final(archive).listable() == old(archive).listable(),
            old(archive).listable() ==> r is Ok,
            r matches Ok(o) ==> match o {
                None => listing(*self, old(archive).names()) is None,
                Some(v) => listing(*self, old(archive).names()) == Some(
                    v@.map_values(|s: String| s@),
                ),
            },
            r matches Err(e) ==> e is Entry,
    {
        let names = archive.entry_names()?;
        let ghost all = archive.names();
        let ghost pred = |n: Seq<char>| self.accepts(n);
        let mut found: Vec<String> = Vec::new();
        let mut i: usize = 0;
        while i < names.len()
            invariant
                names@.map_values(|s: String| s@) == all,
                pred == (|n: Seq<char>| self.accepts(n)),
                i <= names@.len(),
                found@.map_values(|s: String| s@) == all.take(i as int).filter(pred),
            decreases names@.len() - i,
        {
            let name = names[i].as_str();
            assert(name@ == all[i as int]);
            assert(all.take(i + 1) =~= all.take(i as int).push(all[i as int]));
            proof {
                all.take(i as int).lemma_filter_push(all[i as int], pred);
            }
            if self.matches(name) {
                let ghost before = found@;
                found.push(names[i].clone());
                assert(found@.map_values(|s: String| s@) =~= before.map_values(|s: String| s@).push(
                    all[i as int],
                ));
            }
            i = i + 1;
        }
        assert(all.take(names@.len() as int) =~= all);
        if found.len() == 0 {
            Ok(None)
        } else {
            Ok(Some(found))
        }
    }

    /// Any-match: true as soon as one word is found.
    fn anymatch(&self, string: &str) -> (r: bool)
        ensures
            r == matches_any(string@, self.words()),
    {
        let text = chars_of(string);
        let ghost words = self.words();
        let mut k: usize = 0;
        while k < self.query.len()
            invariant
                text@ == string@,
                words == self.words(),
                k <= words.len(),
                forall|i: int| 0 <= i < k ==> !contains_word(text@, #[trigger] words[i]),
            decreases words.len() - k,
        {
            let word = chars_of(self.query[k].as_str());
            assert(word@ == words[k as int]);
            if let Some(p) = find_from(&text, &word, 0) {
                assert(contains_word(text@, words[k as int]));
                return true;
            }
            k = k + 1;
        }
        false
    }
}

/// A name is in the match set exactly when the archive holds it and the
/// query accepts it.
pub proof fn lemma_match_set_member(f: Filter, names: Seq<Seq<char>>, name: Seq<char>)
    ensures
        match_set(f, names).contains(name) <==> names.contains(name) && f.accepts(name),
{
    let pred = |n: Seq<char>| f.accepts(n);
    if match_set(f, names).contains(name) {
        names.lemma_filter_contains_rev(pred, name);
        let j = choose|j: int| 0 <= j < match_set(f, names).len() && match_set(f, names)[j] == name;
        names.lemma_filter_pred(pred, j);
    }
    if names.contains(name) && f.accepts(name) {
        let j = choose|j: int| 0 <= j < names.len() && names[j] == name;
        names.lemma_filter_contains(pred, j);
    }
}

/// Unordered all-match: a name is matched exactly when the archive holds it
/// and every query word is a substring of it, wherever each one stands.
pub proof fn lemma_unordered_match_set(f: Filter, names: Seq<Seq<char>>, name: Seq<char>)
    requires
        !f.any_mode(),
        !f.ordered_mode(),
    ensures
        match_set(f, names).contains(name) <==> names.contains(name) && forall|i: int|
            0 <= i < f.words().len() ==> contains_word(name, #[trigger] f.words()[i]),
{
    lemma_match_set_member(f, names, name);
}

/// Ordered all-match: a name is matched exactly when the archive holds it
/// and the query words can be placed in it at non-decreasing positions.
pub proof fn lemma_ordered_match_set(f: Filter, names: Seq<Seq<char>>, name: Seq<char>)
    requires
        !f.any_mode(),
        f.ordered_mode(),
    ensures
        match_set(f, names).contains(name) <==> names.contains(name) && exists|ps: Seq<int>|
            ordered_placement(name, f.words(), ps),
{
    lemma_match_set_member(f, names, name);
}

/// Any-match: a name is matched exactly when the archive holds it and some
/// query word is a substring of it; an empty query matches nothing.
pub proof fn lemma_any_match_set(f: Filter, names: Seq<Seq<char>>, name: Seq<char>)
    requires
        f.any_mode(),
    ensures
        match_set(f, names).contains(name) <==> names.contains(name) && exists|i: int|
            0 <= i < f.words().len() && contains_word(name, #[trigger] f.words()[i]),
        f.words().len() == 0 ==> match_set(f, names).len() == 0,
{
    lemma_match_set_member(f, names, name);
    if f.words().len() == 0 && match_set(f, names).len() > 0 {
        lemma_match_set_member(f, names, match_set(f, names)[0]);
    }
}

/// What listing reports for `names`: the match set, or `None` where it is
/// empty.
pub open spec fn listing(f: Filter, names: Seq<Seq<char>>) -> Option<Seq<Seq<char>>> {
    if match_set(f, names).len() == 0 {
        None
    } else {
        Some(match_set(f, names))
    }
}

/// Listing is repeatable. A run of `Filter::filter_zip_by_name` on a
/// listable archive succeeds and reports `listing` of its names, and it
/// leaves the names and their listability unchanged. So a second run on
/// the archive it leaves behind also succeeds and reports the same.
pub proof fn lemma_listing_repeatable(f: Filter, first: Archive, second: Archive)
    requires
        first.listable(),
        second.names() == first.names(),
        second.listable() == first.listable(),
    ensures
        second.listable(),
        listing(f, second.names()) == listing(f, first.names()),
{
}

/// The characters of `s`, in order.
pub(crate) fn chars_of(s: &str) -> (r: Vec<char>)
    ensures
        r@ == s@,
{
    let mut r: Vec<char> = Vec::new();
    for c in it: s.chars()
        invariant
            r@ == it.seq().take(it.index() as int),
    {
        r.push(c);
    }
    r
}

/// Whether `word` stands in `text` at position `p`.
fn occurs_at_exec(text: &Vec<char>, word: &Vec<char>, p: usize) -> (r: bool)
    requires
        p + word@.len() <= text@.len(),
    ensures
        r == occurs_at(text@, word@, p as int),
{
    let n = text.len();
    let mut k: usize = 0;
    while k < word.len()
        invariant
            n == text@.len(),
            p + word@.len() <= text@.len(),
            k <= word@.len(),
            text@.subrange(p as int, p + k) == word@.take(k as int),
        decreases word@.len() - k,
    {
        if text[p + k] != word[k] {
            assert(text@.subrange(p as int, p + word@.len())[k as int] != word@[k as int]);
            return false;
        }
        k = k + 1;
        assert(text@.subrange(p as int, p + k) =~= word@.take(k as int));
    }
    assert(word@.take(k as int) =~= word@);
    true
}

/// The leftmost position at or after `from` where `word` stands in `text`.
fn find_from(text: &Vec<char>, word: &Vec<char>, from: usize) -> (r: Option<usize>)
    ensures
        match r {
            Some(p) => {
                &&& from <= p
                &&& occurs_at(text@, word@, p as int)
                &&& forall|q: int| from <= q < p ==> !occurs_at(text@, word@, q)
            },
            None => forall|q: int| from <= q ==> !occurs_at(text@, word@, q),
        },
{
    if word.len() > text.len() || from > text.len() - word.len() {
        return None;
    }
    let last = text.len() - word.len();
    let mut p: usize = from;
    loop
        invariant
            last == text@.len() - word@.len(),
            from <= p <= last,
            forall|q: int| from <= q < p ==> !occurs_at(text@, word@, q),
        decreases last - p,
    {
        if occurs_at_exec(text, word, p) {
            return Some(p);
        }
        if p == last {
            return None;
        }
        p = p + 1;
    }
}

} // verus!
