//! Dictionary lookup: which words to look up for a cursor position, how
//! the hits are ranked, and how they are grouped for display.

use vstd::prelude::*;
use vstd::utf8::{decode_utf8, encode_utf8, is_char_boundary, valid_utf8};
use vstd::string::StringSliceAdditionalSpecFns;
use crate::text::{chars_of, same_chars};
use crate::furigana::{calculate_furigana, furigana_of, parts_view};

verus! {

broadcast use vstd::utf8::group_utf8_lib;

/// At most this many characters from the cursor are looked up.
pub const MAX_LOOKUP_CHARS: usize = 24;

/// CJK unified ideographs, U+4E00 to U+9FFF.
pub open spec fn kanji(c: char) -> bool {
    '\u{4E00}' <= c && c <= '\u{9FFF}'
}

/// Whether `c` is a CJK unified ideograph.
pub fn is_kanji(c: char) -> (r: bool)
    ensures
        r == kanji(c),
{
    c >= '\u{4E00}' && c <= '\u{9FFF}'
}

/// A candidate is kept when it is the substring itself, or when it shares
/// at least one kanji with the substring.
pub open spec fn valid_candidate(source: Seq<char>, candidate: Seq<char>) -> bool {
    ||| source == candidate
    ||| (exists|i: int, j: int|
        0 <= i < candidate.len() && 0 <= j < source.len() && kanji(candidate[i]) && #[trigger] candidate[i]
            == #[trigger] source[j])
}

fn contains_char(cs: &Vec<char>, c: char) -> (r: bool)
    ensures
        r == exists|j: int| 0 <= j < cs@.len() && cs@[j] == c,
{
    let mut j: usize = 0;
    while j < cs.len()
        invariant
            j <= cs@.len(),
            forall|k: int| 0 <= k < j ==> cs@[k] != c,
        decreases cs@.len() - j,
    {
        if cs[j] == c {
            return true;
        }
        j = j + 1;
    }
    false
}

/// Whether a candidate word may stand for the substring `source`.
pub fn is_valid_candidate(source: &str, candidate: &str) -> (r: bool)
    ensures
        r == valid_candidate(source@, candidate@),
{
    let s = chars_of(source);
    let c = chars_of(candidate);
    if same_chars(&s, &c) {
        return true;
    }
    let mut i: usize = 0;
    while i < c.len()
        invariant
            c@ == candidate@,
            s@ == source@,
            i <= c@.len(),
            forall|k: int, j: int|
                0 <= k < i && 0 <= j < s@.len() && kanji(c@[k]) ==> c@[k] != s@[j],
        decreases c@.len() - i,
    {
        let ch = c[i];
        if is_kanji(ch) {
            if contains_char(&s, ch) {
                proof {
                    let j = choose|j: int| 0 <= j < s@.len() && s@[j] == ch;
                    assert(candidate@[i as int] == source@[j]);
                }
                return true;
            }
        }
        i = i + 1;
    }
    false
}

/// A candidate other than the substring is rejected exactly when it shares
/// no kanji with the substring, whether or not it holds any kanji.
pub proof fn lemma_rejected_shares_no_kanji(source: Seq<char>, candidate: Seq<char>)
    requires
        source != candidate,
    ensures
        !valid_candidate(source, candidate) <==> forall|i: int, j: int|
            0 <= i < candidate.len() && 0 <= j < source.len() && kanji(candidate[i]) ==> candidate[i]
                != source[j],
{
}

/// The largest character boundary of `bytes` at or below `index`, or the
/// length when `index` is past the end.
pub open spec fn snapped(bytes: Seq<u8>, index: int) -> int
    decreases index,
{
    if index >= bytes.len() {
        bytes.len() as int
    } else if index <= 0 || is_char_boundary(bytes, index) {
        if index < 0 { 0 } else { index }
    } else {
        snapped(bytes, index - 1)
    }
}

/// Moves a byte offset down to the nearest character boundary of `text`.
pub fn snap_to_char_boundary(text: &str, index: usize) -> (r: usize)
    ensures
        r as int == snapped(text.spec_bytes(), index as int),
        r <= text.spec_bytes().len(),
        r < text.spec_bytes().len() ==> is_char_boundary(text.spec_bytes(), r as int),
{
    let n = text.as_bytes().len();
    proof {
        assert(valid_utf8(text.spec_bytes()));
    }
    if index >= n {
        return n;
    }
    let mut i = index;
    while i > 0 && !text.is_char_boundary(i)
        invariant
            i <= index < n,
            n == text.spec_bytes().len(),
            valid_utf8(text.spec_bytes()),
            snapped(text.spec_bytes(), i as int) == snapped(text.spec_bytes(), index as int),
        decreases i,
    {
        i = i - 1;
    }
    i
}

/// Why a word is looked up.
#[derive(Clone, Copy, Debug, PartialEq, Eq, Structural)]
pub enum CandidateReason {
    /// The substring itself.
    Surface,
    /// The analyzer's dictionary form of it.
    Lemma,
}

/// A word to look up for a substring.
pub struct Candidate {
    pub word: String,
    pub reason: CandidateReason,
}

/// The analyzer's placeholder for an unknown lemma.
pub open spec fn star() -> Seq<char> {
    seq!['*']
}

/// The lemma adds a candidate when there is one, it is not the placeholder
/// `*` and it differs from the substring.
pub open spec fn lemma_kept(text: Seq<char>, lemma: Option<Seq<char>>) -> bool {
    lemma matches Some(l) && l != star() && l != text
}

/// The candidate words of a substring: itself, then the lemma when kept.
pub open spec fn candidates_of(text: Seq<char>, lemma: Option<Seq<char>>) -> Seq<Seq<char>> {
    if lemma_kept(text, lemma) {
        seq![text, lemma->Some_0]
    } else {
        seq![text]
    }
}

/// The characters of an optional string.
pub open spec fn opt_view(o: Option<String>) -> Option<Seq<char>> {
    match o {
        Some(s) => Some(s@),
        None => None,
    }
}

/// The characters of each string.
pub open spec fn words(v: Seq<String>) -> Seq<Seq<char>> {
    v.map_values(|s: String| s@)
}

fn is_star(l: &str) -> (r: bool)
    ensures
        r == (l@ == star()),
{
    let cs = chars_of(l);
    let r = cs.len() == 1 && cs[0] == '*';
    proof {
        if cs@.len() == 1 && cs@[0] == '*' {
            assert(cs@ =~= star());
        }
    }
    r
}

fn same_str(a: &str, b: &str) -> (r: bool)
    ensures
        r == (a@ == b@),
{
    let x = chars_of(a);
    let y = chars_of(b);
    same_chars(&x, &y)
}

/// The candidates for `text`, given the lemma the analyzer found for its
/// first token, if any.
pub fn generate_candidates(text: &str, lemma: Option<&str>) -> (r: Vec<Candidate>)
    ensures
        r@.len() == candidates_of(text@, opt_str(lemma)).len(),
        forall|k: int| 0 <= k < r@.len() ==> #[trigger] r@[k].word@ == candidates_of(text@, opt_str(lemma))[k],
        r@[0].reason == CandidateReason::Surface,
        r@.len() == 2 ==> r@[1].reason == CandidateReason::Lemma,
{
    let mut candidates: Vec<Candidate> = Vec::new();
    candidates.push(Candidate { word: text.to_owned(), reason: CandidateReason::Surface });
    match lemma {
        Some(l) => {
            if !is_star(l) && !same_str(l, text) {
                candidates.push(Candidate { word: l.to_owned(), reason: CandidateReason::Lemma });
            }
        },
        None => {},
    }
    candidates
}

/// The characters of an optional string slice.
pub open spec fn opt_str(o: Option<&str>) -> Option<Seq<char>> {
    match o {
        Some(s) => Some(s@),
        None => None,
    }
}

/// The characters of `bytes` from the character boundary `start` on.
pub open spec fn tail_chars(bytes: Seq<u8>, start: int) -> Seq<char> {
    decode_utf8(bytes.subrange(start, bytes.len() as int))
}

/// The substrings looked up for a cursor: up to 24 characters from the
/// cursor (snapped down to a character boundary), longest first, each one
/// character shorter than the one before; none when the cursor is at or
/// past the end.
pub open spec fn lookup_substrings(bytes: Seq<u8>, cursor: int) -> Seq<Seq<char>> {
    let start = snapped(bytes, cursor);
    if start >= bytes.len() {
        Seq::empty()
    } else {
        let tail = tail_chars(bytes, start);
        let m = if tail.len() < 24 {
            tail.len() as int
        } else {
            24
        };
        Seq::new(m as nat, |k: int| tail.take(m - k))
    }
}

/// The substrings to look up for a cursor offset (in bytes) into `text`.
pub fn search_substrings(text: &str, cursor_offset: usize) -> (r: Vec<String>)
    ensures
        words(r@) == lookup_substrings(text.spec_bytes(), cursor_offset as int),
{
    let start = snap_to_char_boundary(text, cursor_offset);
    let n = text.as_bytes().len();
    let mut out: Vec<String> = Vec::new();
    if start >= n {
        proof {
            assert(words(out@) =~= lookup_substrings(text.spec_bytes(), cursor_offset as int));
        }
        return out;
    }
    let (_, rest) = text.split_at(start);
    let chars = chars_of(rest);
    proof {
        assert(rest@ == decode_utf8(encode_utf8(rest@)));
        assert(chars@ == tail_chars(text.spec_bytes(), start as int));
    }
    let m = if chars.len() < MAX_LOOKUP_CHARS {
        chars.len()
    } else {
        MAX_LOOKUP_CHARS
    };
    let mut len = m;
    while len > 0
        invariant
            len <= m <= chars@.len(),
            m as int == (if chars@.len() < 24 { chars@.len() as int } else { 24 }),
            out@.len() == m - len,
            forall|k: int| 0 <= k < out@.len() ==> #[trigger] out@[k]@ == chars@.take(m - k),
        decreases len,
    {
        let sub = crate::text::string_of(chars.as_slice(), 0, len);
        out.push(sub);
        len = len - 1;
    }
    proof {
        assert(words(out@) =~= lookup_substrings(text.spec_bytes(), cursor_offset as int));
    }
    out
}

/// `seen` with `c` added, when `c` is a valid candidate for `sub` and not
/// yet in `seen`.
pub open spec fn add_word(seen: Seq<Seq<char>>, sub: Seq<char>, c: Seq<char>) -> Seq<Seq<char>> {
    if valid_candidate(sub, c) && !seen.contains(c) {
        seen.push(c)
    } else {
        seen
    }
}

/// The words to query for the first `i` substrings: for each substring,
/// itself and then its kept lemma, each when valid and not already queried.
pub open spec fn plan_upto(subs: Seq<Seq<char>>, lemmas: Seq<Option<Seq<char>>>, i: int) -> Seq<
    Seq<char>,
>
    decreases i,
{
    if i <= 0 {
        Seq::empty()
    } else {
        let prev = plan_upto(subs, lemmas, i - 1);
        let sub = subs[i - 1];
        let with_sub = add_word(prev, sub, sub);
        if lemma_kept(sub, lemmas[i - 1]) {
            add_word(with_sub, sub, lemmas[i - 1]->Some_0)
        } else {
            with_sub
        }
    }
}

fn contains_word(v: &Vec<String>, w: &String) -> (r: bool)
    ensures
        r == words(v@).contains(w@),
{
    let mut j: usize = 0;
    while j < v.len()
        invariant
            j <= v@.len(),
            forall|k: int| 0 <= k < j ==> v@[k]@ != w@,
        decreases v@.len() - j,
    {
        if v[j] == *w {
            proof {
                assert(words(v@)[j as int] == w@);
            }
            return true;
        }
        j = j + 1;
    }
    proof {
        if words(v@).contains(w@) {
            let k = choose|k: int| 0 <= k < words(v@).len() && words(v@)[k] == w@;
            assert(v@[k]@ == w@);
        }
    }
    false
}

fn add_candidate(seen: &mut Vec<String>, sub: &str, c: String)
    ensures
        words(final(seen)@) == add_word(words(old(seen)@), sub@, c@),
{
    if is_valid_candidate(sub, c.as_str()) && !contains_word(seen, &c) {
        seen.push(c);
        proof {
            assert(words(final(seen)@) =~= words(old(seen)@).push(c@));
        }
    }
}

/// The words to query, in order, for `substrings` and the lemma the
/// analyzer found for each (`lemmas[k]` belongs to `substrings[k]`).
pub fn plan_lookup(substrings: &Vec<String>, lemmas: &Vec<Option<String>>) -> (r: Vec<String>)
    requires
        substrings@.len() == lemmas@.len(),
    ensures
        words(r@) == plan_upto(
            words(substrings@),
            lemmas@.map_values(|o: Option<String>| opt_view(o)),
            substrings@.len() as int,
        ),
{
    let ghost subs = words(substrings@);
    let ghost lems = lemmas@.map_values(|o: Option<String>| opt_view(o));
    let mut seen: Vec<String> = Vec::new();
    let mut i: usize = 0;
    while i < substrings.len()
        invariant
            substrings@.len() == lemmas@.len(),
            subs == words(substrings@),
            lems == lemmas@.map_values(|o: Option<String>| opt_view(o)),
            i <= substrings@.len(),
            words(seen@) == plan_upto(subs, lems, i as int),
        decreases substrings@.len() - i,
    {
        let sub = substrings[i].as_str();
        let lemma: Option<&str> = match &lemmas[i] {
            Some(l) => Some(l.as_str()),
            None => None,
        };
        let cands = generate_candidates(sub, lemma);
        proof {
            assert(subs[i as int] == sub@);
            assert(lems[i as int] == opt_str(lemma));
        }
        let mut k: usize = 0;
        let ghost base = words(seen@);
        while k < cands.len()
            invariant
                k <= cands@.len(),
                cands@.len() == candidates_of(sub@, opt_str(lemma)).len(),
                forall|q: int| 0 <= q < cands@.len() ==> #[trigger] cands@[q].word@ == candidates_of(sub@, opt_str(lemma))[q],
                k == 0 ==> words(seen@) == base,
                k == 1 ==> words(seen@) == add_word(base, sub@, sub@),
                k == 2 ==> words(seen@) == add_word(add_word(base, sub@, sub@), sub@, candidates_of(sub@, opt_str(lemma))[1]),
            decreases cands@.len() - k,
        {
            let w = cands[k].word.clone();
            add_candidate(&mut seen, sub, w);
            k = k + 1;
        }
        i = i + 1;
    }
    seen
}

/// One dictionary hit for a looked-up word.
pub struct RecordEntry {
    /// The number of characters the hit covers from the cursor.
    pub span_end: usize,
    /// The id of the dictionary that holds the record.
    pub source: i64,
    pub headword: String,
    /// The record's reading, empty when it has none.
    pub reading: String,
    /// The record's popularity, which orders hits of equal length.
    pub frequency: i64,
    pub tags: Vec<String>,
    /// The record's definitions, serialized.
    pub content: String,
}

impl RecordEntry {
    /// The hit of a record found under `word`: it covers as many characters
    /// as `word` has, and has `word` as its headword.
    pub fn from_hit(
        word: &str,
        reading: Option<String>,
        source: i64,
        popularity: i64,
        tags: Vec<String>,
        content: String,
    ) -> (r: RecordEntry)
        ensures
            r.span_end == word@.len(),
            r.source == source,
            r.headword@ == word@,
            r.reading@ == (match reading {
                Some(x) => x@,
                None => Seq::<char>::empty(),
            }),
            r.frequency == popularity,
            r.tags@ == tags@,
            r.content@ == content@,
    {
        let cs = chars_of(word);
        RecordEntry {
            span_end: cs.len(),
            source,
            headword: word.to_owned(),
            reading: match reading {
                Some(x) => x,
                None => String::new(),
            },
            frequency: popularity,
            tags,
            content,
        }
    }
}

/// `a` ranks strictly before `b`: it covers more characters, or as many
/// with a higher frequency.
pub open spec fn ranks_before(a: RecordEntry, b: RecordEntry) -> bool {
    a.span_end > b.span_end || (a.span_end == b.span_end && a.frequency > b.frequency)
}

/// `a` and `b` rank equally.
pub open spec fn same_rank(a: RecordEntry, b: RecordEntry) -> bool {
    a.span_end == b.span_end && a.frequency == b.frequency
}

/// No entry ranks strictly before an earlier one.
pub open spec fn ranked(s: Seq<RecordEntry>) -> bool {
    forall|i: int, j: int| 0 <= i < j < s.len() ==> !ranks_before(#[trigger] s[j], #[trigger] s[i])
}

/// `r` is `e` reordered by `perm`, which keeps entries of equal rank in
/// their first order.
pub open spec fn stable_reorder(e: Seq<RecordEntry>, r: Seq<RecordEntry>, perm: Seq<int>) -> bool {
    &&& perm.len() == r.len() == e.len()
    &&& forall|k: int| 0 <= k < perm.len() ==> 0 <= #[trigger] perm[k] < e.len() && r[k] == e[perm[k]]
    &&& forall|k: int, q: int| 0 <= k < q < perm.len() ==> #[trigger] perm[k] != #[trigger] perm[q]
    &&& forall|k: int, q: int|
        0 <= k < q < perm.len() && same_rank(#[trigger] r[k], #[trigger] r[q]) ==> perm[k] < perm[q]
}

/// Ranks the hits: longer matches first, higher frequency first among equal
/// lengths, and otherwise in the order they were found.
pub fn rank_entries(entries: Vec<RecordEntry>) -> (r: Vec<RecordEntry>)
    ensures
        ranked(r@),
        exists|perm: Seq<int>| stable_reorder(entries@, r@, perm),
{
    let ghost orig = entries@;
    let mut rest = entries;
    let mut out: Vec<RecordEntry> = Vec::new();
    let ghost mut perm: Seq<int> = Seq::empty();
    let ghost n = orig.len();
    while rest.len() > 0
        invariant
            n == orig.len(),
            out@.len() + rest@.len() == n,
            rest@ == orig.subrange(out@.len() as int, n as int),
            ranked(out@),
            perm.len() == out@.len(),
            forall|k: int| 0 <= k < perm.len() ==> 0 <= #[trigger] perm[k] < out@.len() && out@[k] == orig[perm[k]],
            forall|k: int, q: int| 0 <= k < q < perm.len() ==> #[trigger] perm[k] != #[trigger] perm[q],
            forall|k: int, q: int|
                0 <= k < q < perm.len() && same_rank(#[trigger] out@[k], #[trigger] out@[q]) ==> perm[k] < perm[q],
        decreases rest@.len(),
    {
        let ghost i = out@.len() as int;
        let e = rest.remove(0);
        proof {
            assert(e == orig[i]);
            assert(rest@ == orig.subrange(i + 1, n as int));
        }
        let mut pos: usize = 0;
        while pos < out.len() && !(e.span_end > out[pos].span_end || (e.span_end
            == out[pos].span_end && e.frequency > out[pos].frequency))
            invariant
                pos <= out@.len(),
                forall|k: int| 0 <= k < pos ==> !ranks_before(e, #[trigger] out@[k]),
            decreases out@.len() - pos,
        {
            pos = pos + 1;
        }
        let ghost old_out = out@;
        let ghost old_perm = perm;
        out.insert(pos, e);
        proof {
            perm = old_perm.insert(pos as int, i);
            assert forall|k: int| 0 <= k < perm.len() implies 0 <= #[trigger] perm[k] < out@.len()
                && out@[k] == orig[perm[k]] by {
                if k < pos {
                    assert(perm[k] == old_perm[k]);
                } else if k > pos {
                    assert(perm[k] == old_perm[k - 1]);
                }
            }
            assert forall|k: int, q: int| 0 <= k < q < perm.len() implies #[trigger] perm[k]
                != #[trigger] perm[q] by {
                if k < pos {
                    assert(perm[k] == old_perm[k]);
                } else if k > pos {
                    assert(perm[k] == old_perm[k - 1]);
                }
                if q < pos {
                    assert(perm[q] == old_perm[q]);
                } else if q > pos {
                    assert(perm[q] == old_perm[q - 1]);
                }
            }
            assert forall|k: int, q: int| 0 <= k < q < out@.len() implies !ranks_before(
                #[trigger] out@[q],
                #[trigger] out@[k],
            ) by {
                if k < pos {
                    assert(out@[k] == old_out[k]);
                } else if k > pos {
                    assert(out@[k] == old_out[k - 1]);
                }
                if q < pos {
                    assert(out@[q] == old_out[q]);
                } else if q > pos {
                    assert(out@[q] == old_out[q - 1]);
                }
                if k == pos && q > pos {
                    assert(ranks_before(e, old_out[pos as int]));
                    assert(!ranks_before(old_out[q - 1], old_out[pos as int]) || q - 1 == pos);
                }
            }
            assert forall|k: int, q: int|
                0 <= k < q < perm.len() && same_rank(#[trigger] out@[k], #[trigger] out@[q]) implies perm[k]
                < perm[q] by {
                if k < pos {
                    assert(out@[k] == old_out[k]);
                    assert(perm[k] == old_perm[k]);
                } else if k > pos {
                    assert(out@[k] == old_out[k - 1]);
                    assert(perm[k] == old_perm[k - 1]);
                }
                if q < pos {
                    assert(out@[q] == old_out[q]);
                    assert(perm[q] == old_perm[q]);
                } else if q > pos {
                    assert(out@[q] == old_out[q - 1]);
                    assert(perm[q] == old_perm[q - 1]);
                }
                if k == pos && q > pos {
                    assert(ranks_before(e, old_out[pos as int]));
                    assert(!ranks_before(old_out[q - 1], old_out[pos as int]) || q - 1 == pos);
                }
            }
        }
    }
    proof {
        assert(stable_reorder(orig, out@, perm));
    }
    out
}

/// After ranking, a hit that covers more characters comes before one that
/// covers fewer, and of two hits of equal length the one with the higher
/// frequency comes first.
pub proof fn lemma_ranking_order(r: Seq<RecordEntry>, i: int, j: int)
    requires
        ranked(r),
        0 <= i < r.len(),
        0 <= j < r.len(),
    ensures
        r[i].span_end > r[j].span_end ==> i < j,
        r[i].span_end == r[j].span_end && r[i].frequency > r[j].frequency ==> i < j,
{
    if i >= j && (r[i].span_end > r[j].span_end || (r[i].span_end == r[j].span_end
        && r[i].frequency > r[j].frequency)) {
        assert(i != j);
        assert(!ranks_before(r[i], r[j]));
    }
}

/// One definition of a grouped result.
pub struct ApiDefinition {
    pub dictionary_name: String,
    pub tags: Vec<String>,
    /// The definitions of the record, serialized.
    pub content: String,
}

/// One spelling of a grouped result.
pub struct ApiForm {
    pub headword: String,
    pub reading: String,
}

/// The hits that share a headword and reading.
pub struct ApiGroupedResult {
    pub headword: String,
    pub reading: String,
    pub furigana: Vec<(String, String)>,
    pub definitions: Vec<ApiDefinition>,
    pub forms: Vec<ApiForm>,
    /// The characters covered by the group's first hit.
    pub match_len: usize,
}

/// The request of a lookup: a text and a cursor (a byte offset, 0 when
/// absent).
pub struct LookupParams {
    pub text: String,
    pub index: Option<usize>,
}

/// A definition as dictionary name, tags and content.
pub type DefModel = (Seq<char>, Seq<Seq<char>>, Seq<char>);

/// A grouped result as plain values.
pub struct GroupModel {
    pub headword: Seq<char>,
    pub reading: Seq<char>,
    pub furigana: Seq<(Seq<char>, Seq<char>)>,
    pub definitions: Seq<DefModel>,
    pub forms: Seq<(Seq<char>, Seq<char>)>,
    pub match_len: nat,
}

pub open spec fn def_model(d: ApiDefinition) -> DefModel {
    (d.dictionary_name@, words(d.tags@), d.content@)
}

pub open spec fn group_model(g: ApiGroupedResult) -> GroupModel {
    GroupModel {
        headword: g.headword@,
        reading: g.reading@,
        furigana: parts_view(g.furigana@),
        definitions: g.definitions@.map_values(|d: ApiDefinition| def_model(d)),
        forms: g.forms@.map_values(|f: ApiForm| (f.headword@, f.reading@)),
        match_len: g.match_len as nat,
    }
}

pub open spec fn groups_model(v: Seq<ApiGroupedResult>) -> Seq<GroupModel> {
    v.map_values(|g: ApiGroupedResult| group_model(g))
}

/// The characters of "Unknown".
pub open spec fn unknown_name() -> Seq<char> {
    seq!['U', 'n', 'k', 'n', 'o', 'w', 'n']
}

/// The name of dictionary `id`: the first name listed for it, else
/// "Unknown".
pub open spec fn name_of(names: Seq<(i64, String)>, id: i64) -> Seq<char>
    decreases names.len(),
{
    if names.len() == 0 {
        unknown_name()
    } else if names[0].0 == id {
        names[0].1@
    } else {
        name_of(names.drop_first(), id)
    }
}

/// The index of the first group with this headword and reading, if any.
pub open spec fn group_index(groups: Seq<GroupModel>, h: Seq<char>, r: Seq<char>) -> Option<int>
    decreases groups.len(),
{
    if groups.len() == 0 {
        None
    } else {
        match group_index(groups.drop_last(), h, r) {
            Some(k) => Some(k),
            None => if groups.last().headword == h && groups.last().reading == r {
                Some(groups.len() - 1)
            } else {
                None
            },
        }
    }
}

/// The group with `d` added, unless it already has a definition from the
/// same dictionary with the same content.
pub open spec fn add_definition(g: GroupModel, d: DefModel) -> GroupModel {
    if exists|k: int|
        0 <= k < g.definitions.len() && (#[trigger] g.definitions[k]).0 == d.0
            && g.definitions[k].2 == d.2 {
        g
    } else {
        GroupModel { definitions: g.definitions.push(d), ..g }
    }
}

/// The groups after one more hit: hits without headword are dropped; a
/// hit joins the first group with its headword and reading, or opens a new
/// one with its furigana and its form.
pub open spec fn group_step(groups: Seq<GroupModel>, e: RecordEntry, name: Seq<char>) -> Seq<
    GroupModel,
> {
    let d = (name, words(e.tags@), e.content@);
    if e.headword@.len() == 0 {
        groups
    } else {
        match group_index(groups, e.headword@, e.reading@) {
            Some(k) => groups.update(k, add_definition(groups[k], d)),
            None => groups.push(
                GroupModel {
                    headword: e.headword@,
                    reading: e.reading@,
                    furigana: furigana_of(e.headword@, e.reading@),
                    definitions: seq![d],
                    forms: seq![(e.headword@, e.reading@)],
                    match_len: e.span_end as nat,
                },
            ),
        }
    }
}

/// The groups of the first `i` hits.
pub open spec fn groups_upto(entries: Seq<RecordEntry>, names: Seq<(i64, String)>, i: int) -> Seq<
    GroupModel,
>
    decreases i,
{
    if i <= 0 {
        Seq::empty()
    } else {
        group_step(
            groups_upto(entries, names, i - 1),
            entries[i - 1],
            name_of(names, entries[i - 1].source),
        )
    }
}

fn dictionary_name(names: &Vec<(i64, String)>, id: i64) -> (r: String)
    ensures
        r@ == name_of(names@, id),
{
    let mut k: usize = 0;
    proof {
        assert(names@.subrange(0, names@.len() as int) =~= names@);
    }
    while k < names.len()
        invariant
            k <= names@.len(),
            name_of(names@.subrange(k as int, names@.len() as int), id) == name_of(names@, id),
        decreases names@.len() - k,
    {
        proof {
            assert(names@.subrange(k as int, names@.len() as int).drop_first() =~= names@.subrange(
                k + 1,
                names@.len() as int,
            ));
        }
        if names[k].0 == id {
            return names[k].1.clone();
        }
        k = k + 1;
    }
    let r = String::from_str("Unknown");
    proof {
        reveal_strlit("Unknown");
        assert(r@ =~= unknown_name());
    }
    r
}

fn clone_words(v: &Vec<String>) -> (r: Vec<String>)
    ensures
        words(r@) == words(v@),
{
    let mut out: Vec<String> = Vec::new();
    let mut k: usize = 0;
    while k < v.len()
        invariant
            k <= v@.len(),
            words(out@) == words(v@.subrange(0, k as int)),
        decreases v@.len() - k,
    {
        let ghost prev = out@;
        out.push(v[k].clone());
        proof {
            assert(words(out@) =~= words(prev).push(v@[k as int]@));
            assert(words(v@.subrange(0, k + 1)) =~= words(v@.subrange(0, k as int)).push(
                v@[k as int]@,
            ));
        }
        k = k + 1;
    }
    proof {
        assert(v@.subrange(0, v@.len() as int) =~= v@);
    }
    out
}

fn find_group(groups: &Vec<ApiGroupedResult>, h: &String, r: &String) -> (k: Option<usize>)
    ensures
        match k {
            Some(i) => i < groups@.len() && group_index(groups_model(groups@), h@, r@) == Some(
                i as int,
            ),
            None => group_index(groups_model(groups@), h@, r@) is None,
        },
{
    let ghost m = groups_model(groups@);
    let mut k: usize = 0;
    while k < groups.len()
        invariant
            m == groups_model(groups@),
            k <= groups@.len(),
            group_index(m.subrange(0, k as int), h@, r@) is None,
        decreases groups@.len() - k,
    {
        proof {
            assert(m.subrange(0, k + 1).drop_last() =~= m.subrange(0, k as int));
        }
        if groups[k].headword == *h && groups[k].reading == *r {
            proof {
                assert(m.subrange(0, k + 1).last() == m[k as int]);
                assert(m[k as int] == group_model(groups@[k as int]));
                assert(group_index(m.subrange(0, k + 1), h@, r@) == Some(k as int));
                lemma_group_index_prefix(m, k + 1, h@, r@);
            }
            return Some(k);
        }
        k = k + 1;
    }
    proof {
        assert(m.subrange(0, k as int) =~= m);
    }
    None
}

proof fn lemma_group_index_prefix(m: Seq<GroupModel>, k: int, h: Seq<char>, r: Seq<char>)
    requires
        0 <= k <= m.len(),
        group_index(m.subrange(0, k), h, r) is Some,
    ensures
        group_index(m, h, r) == group_index(m.subrange(0, k), h, r),
    decreases m.len() - k,
{
    if k < m.len() {
        assert(m.subrange(0, k + 1).drop_last() =~= m.subrange(0, k));
        lemma_group_index_prefix(m, k + 1, h, r);
    } else {
        assert(m.subrange(0, k) =~= m);
    }
}

fn has_definition(defs: &Vec<ApiDefinition>, name: &String, content: &String) -> (r: bool)
    ensures
        r == exists|k: int|
            0 <= k < defs@.len() && (#[trigger] def_model(defs@[k])).0 == name@ && def_model(
                defs@[k],
            ).2 == content@,
{
    let mut k: usize = 0;
    while k < defs.len()
        invariant
            k <= defs@.len(),
            forall|q: int|
                0 <= q < k ==> !((#[trigger] def_model(defs@[q])).0 == name@ && def_model(defs@[q]).2
                    == content@),
        decreases defs@.len() - k,
    {
        if defs[k].dictionary_name == *name && defs[k].content == *content {
            proof {
                assert(def_model(defs@[k as int]).0 == name@);
            }
            return true;
        }
        k = k + 1;
    }
    false
}

/// Groups ranked hits by headword and reading, in first-seen order, with
/// each group's definitions deduplicated by dictionary name and content.
/// `dictionary_names` gives each dictionary id its name.
pub fn group_entries(entries: &Vec<RecordEntry>, dictionary_names: &Vec<(i64, String)>) -> (r: Vec<
    ApiGroupedResult,
>)
    ensures
        groups_model(r@) == groups_upto(entries@, dictionary_names@, entries@.len() as int),
{
    let mut groups: Vec<ApiGroupedResult> = Vec::new();
    let mut i: usize = 0;
    while i < entries.len()
        invariant
            i <= entries@.len(),
            groups_model(groups@) == groups_upto(entries@, dictionary_names@, i as int),
        decreases entries@.len() - i,
    {
        let e = &entries[i];
        let name = dictionary_name(dictionary_names, e.source);
        let ghost before = groups_model(groups@);
        let ghost d: DefModel = (name@, words(e.tags@), e.content@);
        if !e.headword.as_str().is_empty() {
            let def = ApiDefinition {
                dictionary_name: name,
                tags: clone_words(&e.tags),
                content: e.content.clone(),
            };
            assert(def_model(def) == d);
            match find_group(&groups, &e.headword, &e.reading) {
                Some(k) => {
                    let mut g = groups.remove(k);
                    let ghost old_g = group_model(g);
                    let dup = has_definition(&g.definitions, &def.dictionary_name, &def.content);
                    proof {
                        assert(old_g == before[k as int]);
                        if dup {
                            let q = choose|q: int|
                                0 <= q < g.definitions@.len() && (#[trigger] def_model(
                                    g.definitions@[q],
                                )).0 == d.0 && def_model(g.definitions@[q]).2 == d.2;
                            assert(old_g.definitions[q] == def_model(g.definitions@[q]));
                        } else {
                            assert forall|q: int| 0 <= q < old_g.definitions.len() implies !((
                            #[trigger] old_g.definitions[q]).0 == d.0 && old_g.definitions[q].2
                                == d.2) by {
                                assert(old_g.definitions[q] == def_model(g.definitions@[q]));
                            }
                        }
                    }
                    if !dup {
                        let ghost old_defs = g.definitions@;
                        g.definitions.push(def);
                        proof {
                            assert(g.definitions@.map_values(|d: ApiDefinition| def_model(d))
                                =~= old_defs.map_values(|d: ApiDefinition| def_model(d)).push(d));
                        }
                    }
                    proof {
                        assert(group_model(g) == add_definition(before[k as int], d));
                    }
                    groups.insert(k, g);
                    proof {
                        assert(groups_model(groups@) =~= before.update(
                            k as int,
                            add_definition(before[k as int], d),
                        ));
                    }
                },
                None => {
                    let h = e.headword.clone();
                    let rd = e.reading.clone();
                    let furigana = calculate_furigana(h.as_str(), rd.as_str());
                    let mut definitions: Vec<ApiDefinition> = Vec::new();
                    definitions.push(def);
                    let mut forms: Vec<ApiForm> = Vec::new();
                    forms.push(ApiForm { headword: e.headword.clone(), reading: e.reading.clone() });
                    let g = ApiGroupedResult {
                        headword: h,
                        reading: rd,
                        furigana,
                        definitions,
                        forms,
                        match_len: e.span_end,
                    };
                    proof {
                        assert(group_model(g).definitions =~= seq![d]);
                        assert(group_model(g).forms =~= seq![(e.headword@, e.reading@)]);
                    }
                    groups.push(g);
                    proof {
                        assert(groups_model(groups@) =~= before.push(group_model(g)));
                    }
                },
            }
        }
        i = i + 1;
    }
    groups
}

/// The morphological analyzer's segmenter.
#[verifier::external_type_specification]
#[verifier::external_body]
pub struct ExSegmenter(lindera::segmenter::Segmenter);

/// Relies on `lindera::segmenter::Segmenter::segment` and
/// `lindera::token::Token::details`: the eighth detail (the lemma) of the
/// first token of `text`, when the analyzer finds one. What it returns
/// depends on the dictionary the segmenter was loaded with, so nothing is
/// promised of it.
#[verifier::external_body]
fn first_token_lemma(segmenter: &lindera::segmenter::Segmenter, text: &str) -> (r: Option<String>) {
    let mut tokens = match segmenter.segment(std::borrow::Cow::Borrowed(text)) {
        Ok(t) => t,
        Err(_) => return None,
    };
    match tokens.first_mut() {
        Some(first) => first.details().get(7).map(|l| l.to_string()),
        None => None,
    }
}

/// The words to query for a cursor offset into `text`: the lookup plan of
/// its substrings, with the lemmas the analyzer gives (none without an
/// analyzer). Whatever the analyzer returns, the words are that plan for
/// some lemma of each substring.
pub fn lookup_words(segmenter: Option<&lindera::segmenter::Segmenter>, text: &str, cursor_offset: usize) -> (r: Vec<String>)
    ensures
        exists|lemmas: Seq<Option<Seq<char>>>|
            lemmas.len() == lookup_substrings(text.spec_bytes(), cursor_offset as int).len()
                && words(r@) == plan_upto(
                lookup_substrings(text.spec_bytes(), cursor_offset as int),
                lemmas,
                lemmas.len() as int,
            ),
        segmenter is None ==> words(r@) == plan_upto(
            lookup_substrings(text.spec_bytes(), cursor_offset as int),
            Seq::new(
                lookup_substrings(text.spec_bytes(), cursor_offset as int).len(),
                |k: int| None::<Seq<char>>,
            ),
            lookup_substrings(text.spec_bytes(), cursor_offset as int).len() as int,
        ),
{
    let substrings = search_substrings(text, cursor_offset);
    let mut lemmas: Vec<Option<String>> = Vec::new();
    let mut k: usize = 0;
    while k < substrings.len()
        invariant
            k <= substrings@.len(),
            lemmas@.len() == k,
            segmenter is None ==> forall|q: int| 0 <= q < k ==> (#[trigger] lemmas@[q]) is None,
        decreases substrings@.len() - k,
    {
        let lemma = match segmenter {
            Some(seg) => first_token_lemma(seg, substrings[k].as_str()),
            None => None,
        };
        lemmas.push(lemma);
        k = k + 1;
    }
    let r = plan_lookup(&substrings, &lemmas);
    proof {
        let ls = lemmas@.map_values(|o: Option<String>| opt_view(o));
        let subs = lookup_substrings(text.spec_bytes(), cursor_offset as int);
        assert(words(substrings@) == subs);
        assert(ls.len() == subs.len() && words(r@) == plan_upto(subs, ls, ls.len() as int));
        if segmenter is None {
            assert(ls =~= Seq::new(
                lookup_substrings(text.spec_bytes(), cursor_offset as int).len(),
                |k: int| None::<Seq<char>>,
            ));
        }
    }
    r
}

} // verus!
