//! The rules of the dictionary loader: which archive files it reads and
//! which term rows each entry of a term bank gives.

use vstd::prelude::*;
use crate::text::{chars_of, same_chars};

verus! {

/// `s` ends with `suffix`.
pub open spec fn ends_with(s: Seq<char>, suffix: Seq<char>) -> bool {
    s.len() >= suffix.len() && s.subrange(s.len() - suffix.len(), s.len() as int) == suffix
}

/// `pat` occurs in `s`.
pub open spec fn occurs(s: Seq<char>, pat: Seq<char>) -> bool {
    exists|i: int| 0 <= i && i + pat.len() <= s.len() && #[trigger] s.subrange(i, i + pat.len()) == pat
}

pub open spec fn index_json() -> Seq<char> {
    seq!['i', 'n', 'd', 'e', 'x', '.', 'j', 's', 'o', 'n']
}

pub open spec fn dot_json() -> Seq<char> {
    seq!['.', 'j', 's', 'o', 'n']
}

pub open spec fn term_bank() -> Seq<char> {
    seq!['t', 'e', 'r', 'm', '_', 'b', 'a', 'n', 'k']
}

fn matches_at(s: &Vec<char>, at: usize, pat: &Vec<char>) -> (r: bool)
    requires
        at + pat@.len() <= s@.len(),
    ensures
        r == (s@.subrange(at as int, at + pat@.len()) == pat@),
{
    let n = s.len();
    let mut k: usize = 0;
    while k < pat.len()
        invariant
            n == s@.len(),
            at + pat@.len() <= s@.len(),
            k <= pat@.len(),
            forall|q: int| 0 <= q < k ==> s@[at + q] == pat@[q],
        decreases pat@.len() - k,
    {
        if s[at + k] != pat[k] {
            proof {
                assert(s@.subrange(at as int, at + pat@.len())[k as int] != pat@[k as int]);
            }
            return false;
        }
        k = k + 1;
    }
    proof {
        assert(s@.subrange(at as int, at + pat@.len()) =~= pat@);
    }
    true
}

fn ends_with_chars(s: &Vec<char>, suffix: &Vec<char>) -> (r: bool)
    ensures
        r == ends_with(s@, suffix@),
{
    if s.len() < suffix.len() {
        return false;
    }
    matches_at(s, s.len() - suffix.len(), suffix)
}

fn occurs_chars(s: &Vec<char>, pat: &Vec<char>) -> (r: bool)
    ensures
        r == occurs(s@, pat@),
{
    if s.len() < pat.len() {
        return false;
    }
    let last = s.len() - pat.len();
    let mut i: usize = 0;
    while i < last
        invariant
            i <= last,
            last + pat@.len() == s@.len(),
            forall|q: int| 0 <= q < i ==> #[trigger] s@.subrange(q, q + pat@.len()) != pat@,
        decreases last - i,
    {
        if matches_at(s, i, pat) {
            return true;
        }
        i = i + 1;
    }
    if matches_at(s, last, pat) {
        return true;
    }
    proof {
        assert forall|q: int| 0 <= q && q + pat@.len() <= s@.len() implies #[trigger] s@.subrange(q, q + pat@.len())
            != pat@ by {
            assert(q <= last);
        }
    }
    false
}

fn literal_chars(s: &str) -> (r: Vec<char>)
    ensures
        r@ == s@,
{
    chars_of(s)
}

/// The archive's metadata file: a name ending in `index.json`.
pub fn is_index_file(name: &str) -> (r: bool)
    ensures
        r == ends_with(name@, index_json()),
{
    let n = chars_of(name);
    let pat = literal_chars("index.json");
    proof {
        reveal_strlit("index.json");
        assert(pat@ =~= index_json());
    }
    ends_with_chars(&n, &pat)
}

/// A term bank: a name holding `term_bank` and ending in `.json`.
pub fn is_term_bank_file(name: &str) -> (r: bool)
    ensures
        r == (occurs(name@, term_bank()) && ends_with(name@, dot_json())),
{
    let n = chars_of(name);
    let bank = literal_chars("term_bank");
    let json = literal_chars(".json");
    proof {
        reveal_strlit("term_bank");
        reveal_strlit(".json");
        assert(bank@ =~= term_bank());
        assert(json@ =~= dot_json());
    }
    occurs_chars(&n, &bank) && ends_with_chars(&n, &json)
}

/// The rows one term-bank entry gives: the reading to store with the
/// record, and the terms it is indexed under.
pub struct TermRows {
    pub stored_reading: Option<String>,
    pub terms: Vec<String>,
}

/// An entry without headword gives no rows. Otherwise it is indexed under
/// its headword and, when its reading is non-empty and differs from the
/// headword, under its reading too, which is then stored with the record.
pub fn term_rows(headword: &str, reading: &str) -> (r: Option<TermRows>)
    ensures
        headword@.len() == 0 <==> r is None,
        r matches Some(t) ==> {
            let keep = reading@.len() > 0 && reading@ != headword@;
            &&& keep ==> (t.stored_reading matches Some(s) && s@ == reading@)
            &&& !keep ==> t.stored_reading is None
            &&& t.terms@.len() == if keep { 2int } else { 1int }
            &&& t.terms@[0]@ == headword@
            &&& keep ==> t.terms@[1]@ == reading@
        },
{
    let h = chars_of(headword);
    if h.len() == 0 {
        return None;
    }
    let rd = chars_of(reading);
    let mut terms: Vec<String> = Vec::new();
    terms.push(headword.to_owned());
    let differs = !same_chars(&h, &rd);
    if rd.len() > 0 && differs {
        terms.push(reading.to_owned());
        Some(TermRows { stored_reading: Some(reading.to_owned()), terms })
    } else {
        Some(TermRows { stored_reading: None, terms })
    }
}

} // verus!
