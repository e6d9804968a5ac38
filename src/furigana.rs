//! Furigana alignment of a headword with its reading.

use vstd::prelude::*;
use crate::text::{chars_of, same_chars, string_of};

verus! {

/// The length of the common prefix of `h` and `r`, counted from `i`.
pub open spec fn common_prefix_from(h: Seq<char>, r: Seq<char>, i: int) -> int
    decreases h.len() - i,
{
    if 0 <= i && i < h.len() && i < r.len() && h[i] == r[i] {
        common_prefix_from(h, r, i + 1)
    } else {
        i
    }
}

/// The length of the common suffix of `h` and `r` that leaves the first `p`
/// characters of each alone, counted from `k`.
pub open spec fn common_suffix_from(h: Seq<char>, r: Seq<char>, p: int, k: int) -> int
    decreases h.len() - k,
{
    if 0 <= k && 0 <= p && h.len() - k > p && r.len() - k > p && h[h.len() - 1 - k] == r[r.len() - 1 - k] {
        common_suffix_from(h, r, p, k + 1)
    } else {
        k
    }
}

/// The furigana parts of a headword and its reading: the whole headword
/// without ruby when the reading is empty or equal to it; else the shared
/// prefix without ruby, the differing root with the reading's root as ruby,
/// and the shared suffix without ruby, each only when non-empty.
pub open spec fn furigana_of(h: Seq<char>, r: Seq<char>) -> Seq<(Seq<char>, Seq<char>)> {
    if r.len() == 0 || h == r {
        seq![(h, Seq::empty())]
    } else {
        let p = common_prefix_from(h, r, 0);
        let s = common_suffix_from(h, r, p, 0);
        let he = h.len() - s;
        let re = r.len() - s;
        (if p > 0 {
            seq![(h.subrange(0, p), Seq::<char>::empty())]
        } else {
            Seq::empty()
        }) + (if p < he {
            seq![(h.subrange(p, he), r.subrange(p, re))]
        } else {
            Seq::empty()
        }) + (if he < h.len() {
            seq![(h.subrange(he, h.len() as int), Seq::<char>::empty())]
        } else {
            Seq::empty()
        })
    }
}

/// The parts as sequences of characters.
pub open spec fn parts_view(parts: Seq<(String, String)>) -> Seq<(Seq<char>, Seq<char>)> {
    parts.map_values(|q: (String, String)| (q.0@, q.1@))
}

/// The bases of the parts, concatenated.
pub open spec fn concat_bases(parts: Seq<(Seq<char>, Seq<char>)>) -> Seq<char>
    decreases parts.len(),
{
    if parts.len() == 0 {
        Seq::empty()
    } else {
        concat_bases(parts.drop_last()) + parts.last().0
    }
}

/// The parts read aloud: each ruby where it is non-empty, else its base.
pub open spec fn concat_readings(parts: Seq<(Seq<char>, Seq<char>)>) -> Seq<char>
    decreases parts.len(),
{
    if parts.len() == 0 {
        Seq::empty()
    } else {
        concat_readings(parts.drop_last()) + if parts.last().1.len() > 0 {
            parts.last().1
        } else {
            parts.last().0
        }
    }
}

/// Aligns `reading` over `headword` by trimming their common prefix and
/// suffix.
pub fn calculate_furigana(headword: &str, reading: &str) -> (r: Vec<(String, String)>)
    ensures
        parts_view(r@) == furigana_of(headword@, reading@),
{
    let h = chars_of(headword);
    let rd = chars_of(reading);
    let mut parts: Vec<(String, String)> = Vec::new();
    let same = same_chars(&h, &rd);
    if rd.len() == 0 || same {
        parts.push((string_of(h.as_slice(), 0, h.len()), String::new()));
        proof {
            assert(h@.subrange(0, h@.len() as int) == h@);
            assert(parts_view(parts@) =~= furigana_of(headword@, reading@));
        }
        return parts;
    }
    let mut p: usize = 0;
    while p < h.len() && p < rd.len() && h[p] == rd[p]
        invariant
            p <= h@.len(),
            p <= rd@.len(),
            common_prefix_from(h@, rd@, p as int) == common_prefix_from(h@, rd@, 0),
        decreases h@.len() - p,
    {
        p = p + 1;
    }
    let mut s: usize = 0;
    while h.len() - s > p && rd.len() - s > p && h[h.len() - 1 - s] == rd[rd.len() - 1 - s]
        invariant
            p <= h@.len() - s,
            p <= rd@.len() - s,
            common_suffix_from(h@, rd@, p as int, s as int) == common_suffix_from(
                h@,
                rd@,
                p as int,
                0,
            ),
        decreases h@.len() - s,
    {
        s = s + 1;
    }
    let he = h.len() - s;
    let re = rd.len() - s;
    if p > 0 {
        parts.push((string_of(h.as_slice(), 0, p), String::new()));
    }
    if p < he {
        parts.push((string_of(h.as_slice(), p, he), string_of(rd.as_slice(), p, re)));
    }
    if he < h.len() {
        parts.push((string_of(h.as_slice(), he, h.len()), String::new()));
    }
    proof {
        assert(parts_view(parts@) =~= furigana_of(headword@, reading@));
    }
    parts
}

proof fn lemma_prefix(h: Seq<char>, r: Seq<char>, i: int)
    requires
        0 <= i <= h.len(),
        i <= r.len(),
        h.subrange(0, i) == r.subrange(0, i),
    ensures
        i <= common_prefix_from(h, r, i) <= h.len(),
        common_prefix_from(h, r, i) <= r.len(),
        h.subrange(0, common_prefix_from(h, r, i)) == r.subrange(0, common_prefix_from(h, r, i)),
    decreases h.len() - i,
{
    if i < h.len() && i < r.len() && h[i] == r[i] {
        assert(h.subrange(0, i + 1) == h.subrange(0, i).push(h[i]));
        assert(r.subrange(0, i + 1) == r.subrange(0, i).push(r[i]));
        lemma_prefix(h, r, i + 1);
    }
}

proof fn lemma_suffix(h: Seq<char>, r: Seq<char>, p: int, k: int)
    requires
        0 <= p,
        0 <= k,
        p <= h.len() - k,
        p <= r.len() - k,
        h.subrange(h.len() - k, h.len() as int) == r.subrange(r.len() - k, r.len() as int),
    ensures
        k <= common_suffix_from(h, r, p, k),
        p <= h.len() - common_suffix_from(h, r, p, k),
        p <= r.len() - common_suffix_from(h, r, p, k),
        h.subrange(h.len() - common_suffix_from(h, r, p, k), h.len() as int) == r.subrange(
            r.len() - common_suffix_from(h, r, p, k),
            r.len() as int,
        ),
    decreases h.len() - k,
{
    if h.len() - k > p && r.len() - k > p && h[h.len() - 1 - k] == r[r.len() - 1 - k] {
        assert(h.subrange(h.len() - (k + 1), h.len() as int) == seq![h[h.len() - 1 - k]]
            + h.subrange(h.len() - k, h.len() as int));
        assert(r.subrange(r.len() - (k + 1), r.len() as int) == seq![r[r.len() - 1 - k]]
            + r.subrange(r.len() - k, r.len() as int));
        lemma_suffix(h, r, p, k + 1);
    }
}

/// The bases of the furigana parts, concatenated, give back the headword;
/// and, when the reading is non-empty and the headword's root and the
/// reading's root are both empty or both non-empty, reading each part's ruby
/// (or its base where the ruby is empty) gives back the reading, with the
/// shared leading and trailing runs kept.
pub proof fn lemma_furigana_round_trip(h: Seq<char>, r: Seq<char>)
    ensures
        concat_bases(furigana_of(h, r)) == h,
        r.len() > 0 && ({
            let p = common_prefix_from(h, r, 0);
            let s = common_suffix_from(h, r, p, 0);
            (h.len() - s - p == 0) == (r.len() - s - p == 0)
        }) ==> concat_readings(furigana_of(h, r)) == r,
{
    let parts = furigana_of(h, r);
    if r.len() == 0 || h == r {
        assert(parts.drop_last() =~= Seq::<(Seq<char>, Seq<char>)>::empty());
        assert(concat_bases(parts.drop_last()) == Seq::<char>::empty());
        assert(concat_readings(parts.drop_last()) == Seq::<char>::empty());
        assert(concat_bases(parts) =~= h);
        assert(concat_readings(parts) =~= h);
    } else {
        assert(h.subrange(0, 0) =~= r.subrange(0, 0));
        lemma_prefix(h, r, 0);
        assert(h.subrange(h.len() - 0, h.len() as int) =~= r.subrange(r.len() - 0, r.len() as int));
        let p = common_prefix_from(h, r, 0);
        lemma_suffix(h, r, p, 0);
        let s = common_suffix_from(h, r, p, 0);
        let he = h.len() - s;
        let re = r.len() - s;
        let a: Seq<(Seq<char>, Seq<char>)> = if p > 0 {
            seq![(h.subrange(0, p), Seq::<char>::empty())]
        } else {
            Seq::empty()
        };
        let b: Seq<(Seq<char>, Seq<char>)> = if p < he {
            seq![(h.subrange(p, he), r.subrange(p, re))]
        } else {
            Seq::empty()
        };
        let c: Seq<(Seq<char>, Seq<char>)> = if he < h.len() {
            seq![(h.subrange(he, h.len() as int), Seq::<char>::empty())]
        } else {
            Seq::empty()
        };
        assert(parts == a + b + c);
        let ab = a + b;
        assert(concat_bases(a) =~= (if p > 0 { h.subrange(0, p) } else { Seq::empty() })) by {
            if p > 0 {
                assert(a.drop_last() =~= Seq::<(Seq<char>, Seq<char>)>::empty());
                assert(concat_bases(a.drop_last()) == Seq::<char>::empty());
            } else {
                assert(a.len() == 0);
            }
        }
        assert(concat_readings(a) =~= (if p > 0 { h.subrange(0, p) } else { Seq::empty() })) by {
            if p > 0 {
                assert(a.drop_last() =~= Seq::<(Seq<char>, Seq<char>)>::empty());
                assert(concat_readings(a.drop_last()) == Seq::<char>::empty());
            } else {
                assert(a.len() == 0);
            }
        }
        assert(concat_bases(ab) =~= h.subrange(0, he)) by {
            if p < he {
                assert(ab.drop_last() =~= a);
            } else {
                assert(ab =~= a);
            }
        }
        assert((h.len() - s - p == 0) == (r.len() - s - p == 0) ==> concat_readings(ab)
            =~= r.subrange(0, re)) by {
            if (h.len() - s - p == 0) == (r.len() - s - p == 0) {
                if p < he {
                    assert(ab.drop_last() =~= a);
                    assert(r.subrange(0, re) =~= r.subrange(0, p) + r.subrange(p, re));
                } else {
                    assert(ab =~= a);
                    assert(r.subrange(0, re) =~= r.subrange(0, p));
                }
            }
        }
        let abc = ab + c;
        if he < h.len() {
            assert(abc.drop_last() =~= ab);
            assert(h =~= h.subrange(0, he) + h.subrange(he, h.len() as int));
            assert(r =~= r.subrange(0, re) + r.subrange(re, r.len() as int));
        } else {
            assert(abc =~= ab);
            assert(h.subrange(0, he) =~= h);
            assert(r.subrange(0, re) =~= r);
        }
    }
}

} // verus!
