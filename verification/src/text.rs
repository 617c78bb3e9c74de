//! Splitting and joining character sequences on a separator character.
//!
//! The record codec splits raw lines on `,` and `#`, and the IP validator
//! splits candidate addresses on `.` and `:`; the contracts of all of them are
//! stated over the spec functions here.

use vstd::prelude::*;

verus! {

/// Index of the first occurrence of `c` in `s`, or `-1` if `c` does not occur.
pub open spec fn find_ch(s: Seq<char>, c: char) -> int
    decreases s.len(),
{
    if s.len() == 0 {
        -1
    } else if s[0] == c {
        0
    } else {
        let r = find_ch(s.drop_first(), c);
        if r < 0 {
            -1
        } else {
            r + 1
        }
    }
}

/// `find_ch` returns either `-1` (and then `c` does not occur in `s`) or the
/// position of the first occurrence of `c`.
pub proof fn lemma_find_ch(s: Seq<char>, c: char)
    ensures
        find_ch(s, c) == -1 || (0 <= find_ch(s, c) < s.len() && s[find_ch(s, c)] == c),
        forall|j: int| 0 <= j < find_ch(s, c) ==> s[j] != c,
        find_ch(s, c) == -1 ==> forall|j: int| 0 <= j < s.len() ==> s[j] != c,
    decreases s.len(),
{
    if s.len() == 0 {
    } else if s[0] == c {
    } else {
        lemma_find_ch(s.drop_first(), c);
        let r = find_ch(s, c);
        if r == -1 {
            assert forall|j: int| 0 <= j < s.len() implies s[j] != c by {
                if j > 0 {
                    assert(s.drop_first()[j - 1] == s[j]);
                }
            }
        } else {
            assert(s.drop_first()[r - 1] == s[r]);
            assert forall|j: int| 0 <= j < r implies s[j] != c by {
                if j > 0 {
                    assert(s.drop_first()[j - 1] == s[j]);
                }
            }
        }
    }
}

/// If `c` first occurs in `s` at position `i`, then `find_ch` returns `i`.
pub proof fn lemma_find_ch_at(s: Seq<char>, c: char, i: int)
    requires
        0 <= i < s.len(),
        s[i] == c,
        forall|j: int| 0 <= j < i ==> s[j] != c,
    ensures
        find_ch(s, c) == i,
    decreases s.len(),
{
    if s[0] == c {
        assert(i == 0);
    } else {
        assert(forall|j: int| 0 <= j < s.drop_first().len() ==> s.drop_first()[j] == s[j + 1]);
        lemma_find_ch_at(s.drop_first(), c, i - 1);
    }
}

/// The segments of `s` between occurrences of the separator `c`, in order.
/// There is always at least one segment; a separator at the start or the end,
/// or two adjacent separators, contribute empty segments.
pub open spec fn split_ch(s: Seq<char>, c: char) -> Seq<Seq<char>>
    decreases s.len(),
{
    let i = find_ch(s, c);
    if i < 0 {
        seq![s]
    } else {
        proof {
            lemma_find_ch(s, c);
        }
        seq![s.subrange(0, i)] + split_ch(s.subrange(i + 1, s.len() as int), c)
    }
}

pub proof fn lemma_split_len(s: Seq<char>, c: char)
    ensures
        split_ch(s, c).len() >= 1,
{
    let i = find_ch(s, c);
    if i >= 0 {
        lemma_find_ch(s, c);
    }
}

/// A split has at least one segment and at most one more than the length of `s`.
pub proof fn lemma_split_count(s: Seq<char>, c: char)
    ensures
        1 <= split_ch(s, c).len() <= s.len() + 1,
    decreases s.len(),
{
    let i = find_ch(s, c);
    if i >= 0 {
        lemma_find_ch(s, c);
        lemma_split_count(s.subrange(i + 1, s.len() as int), c);
    }
}

/// If `c` does not occur in `s`, the split is the single segment `s`.
pub proof fn lemma_split_whole(s: Seq<char>, c: char)
    requires
        forall|k: int| 0 <= k < s.len() ==> s[k] != c,
    ensures
        split_ch(s, c) == seq![s],
{
    lemma_find_ch(s, c);
    if find_ch(s, c) >= 0 {
        assert(s[find_ch(s, c)] == c);
        assert(false);
    }
}

/// If the first occurrence of `c` in `s` is at position `j`, the split is the
/// segment before `j` followed by the split of the remainder after `j`.
pub proof fn lemma_split_step(s: Seq<char>, c: char, j: int)
    requires
        0 <= j < s.len(),
        s[j] == c,
        forall|k: int| 0 <= k < j ==> s[k] != c,
    ensures
        split_ch(s, c) == seq![s.subrange(0, j)] + split_ch(
            s.subrange(j + 1, s.len() as int),
            c,
        ),
{
    lemma_find_ch_at(s, c, j);
}

/// The segments rejoined with the separator `c` between them.
pub open spec fn join_ch(parts: Seq<Seq<char>>, c: char) -> Seq<char>
    decreases parts.len(),
{
    if parts.len() == 0 {
        Seq::empty()
    } else if parts.len() == 1 {
        parts[0]
    } else {
        parts[0] + seq![c] + join_ch(parts.drop_first(), c)
    }
}

/// Joining the segments of a split reproduces the original sequence.
pub proof fn lemma_join_split(s: Seq<char>, c: char)
    ensures
        join_ch(split_ch(s, c), c) == s,
    decreases s.len(),
{
    let i = find_ch(s, c);
    lemma_find_ch(s, c);
    if i >= 0 {
        let tail = s.subrange(i + 1, s.len() as int);
        lemma_join_split(tail, c);
        lemma_split_len(tail, c);
        let parts = seq![s.subrange(0, i)] + split_ch(tail, c);
        assert(split_ch(s, c) == parts);
        assert(parts.drop_first() =~= split_ch(tail, c));
        assert(parts.len() >= 2);
        assert(join_ch(parts, c) == s.subrange(0, i) + seq![c] + tail);
        assert(s.subrange(0, i) + seq![c] + tail =~= s);
    }
}

/// Appending one more segment extends the join by the separator and that segment.
pub proof fn lemma_join_push(parts: Seq<Seq<char>>, c: char, p: Seq<char>)
    requires
        parts.len() >= 1,
    ensures
        join_ch(parts.push(p), c) == join_ch(parts, c) + seq![c] + p,
    decreases parts.len(),
{
    if parts.len() == 1 {
        let w = parts.push(p);
        assert(w.len() == 2);
        assert(w.drop_first() =~= seq![p]);
        assert(join_ch(seq![p], c) == p);
        assert(join_ch(w, c) == w[0] + seq![c] + join_ch(w.drop_first(), c));
        assert(join_ch(w, c) == parts[0] + seq![c] + p);
    } else {
        assert(parts.push(p).drop_first() =~= parts.drop_first().push(p));
        lemma_join_push(parts.drop_first(), c, p);
        assert(join_ch(parts.push(p), c) == parts[0] + seq![c] + join_ch(
            parts.drop_first().push(p),
            c,
        ));
        assert((parts[0] + seq![c] + (join_ch(parts.drop_first(), c) + seq![c] + p)) =~= (parts[0]
            + seq![c] + join_ch(parts.drop_first(), c)) + seq![c] + p);
    }
}

/// No segment of a split contains the separator.
pub proof fn lemma_split_parts_free(s: Seq<char>, c: char)
    ensures
        forall|i: int|
            0 <= i < split_ch(s, c).len() ==> forall|k: int|
                0 <= k < (#[trigger] split_ch(s, c)[i]).len() ==> split_ch(s, c)[i][k] != c,
    decreases s.len(),
{
    let idx = find_ch(s, c);
    lemma_find_ch(s, c);
    if idx >= 0 {
        let tail = s.subrange(idx + 1, s.len() as int);
        lemma_split_parts_free(tail, c);
        let ps = split_ch(s, c);
        assert(ps == seq![s.subrange(0, idx)] + split_ch(tail, c));
        assert forall|i: int| 0 <= i < ps.len() implies forall|k: int|
            0 <= k < (#[trigger] ps[i]).len() ==> ps[i][k] != c by {
            if i == 0 {
                assert(forall|k: int| 0 <= k < idx ==> s.subrange(0, idx)[k] == s[k]);
            } else {
                assert(ps[i] == split_ch(tail, c)[i - 1]);
            }
        }
    }
}

/// Splitting a join recovers the segments, whenever no segment contains the
/// separator.
pub proof fn lemma_split_join(parts: Seq<Seq<char>>, c: char)
    requires
        parts.len() >= 1,
        forall|i: int|
            0 <= i < parts.len() ==> forall|k: int|
                0 <= k < (#[trigger] parts[i]).len() ==> parts[i][k] != c,
    ensures
        split_ch(join_ch(parts, c), c) == parts,
    decreases parts.len(),
{
    let s = join_ch(parts, c);
    if parts.len() == 1 {
        assert(s == parts[0]);
        lemma_split_whole(s, c);
        assert(seq![parts[0]] =~= parts);
    } else {
        let rest = parts.drop_first();
        assert(forall|i: int| 0 <= i < rest.len() ==> #[trigger] rest[i] == parts[i + 1]);
        lemma_split_join(rest, c);
        let h = parts[0];
        let tail = join_ch(rest, c);
        assert(s == h + seq![c] + tail);
        let j = h.len() as int;
        assert(s[j] == c);
        assert(forall|k: int| 0 <= k < j ==> s[k] == h[k] && s[k] != c);
        lemma_split_step(s, c, j);
        assert(s.subrange(0, j) =~= h);
        assert(s.subrange(j + 1, s.len() as int) =~= tail);
        assert(seq![h] + rest =~= parts);
    }
}

/// Whether every character of `s` satisfies `allowed`.
pub open spec fn all_chars_in(s: Seq<char>, allowed: spec_fn(char) -> bool) -> bool {
    forall|k: int| 0 <= k < s.len() ==> allowed(#[trigger] s[k])
}

/// A join of segments whose characters all satisfy `allowed`, with a separator
/// that satisfies it too, has all its characters satisfying `allowed`.
pub proof fn lemma_join_all_chars(parts: Seq<Seq<char>>, c: char, allowed: spec_fn(char) -> bool)
    requires
        allowed(c),
        forall|i: int| 0 <= i < parts.len() ==> all_chars_in(#[trigger] parts[i], allowed),
    ensures
        all_chars_in(join_ch(parts, c), allowed),
    decreases parts.len(),
{
    if parts.len() <= 1 {
    } else {
        assert(forall|i: int|
            0 <= i < parts.drop_first().len() ==> parts.drop_first()[i] == parts[i + 1]);
        lemma_join_all_chars(parts.drop_first(), c, allowed);
        let j = join_ch(parts, c);
        let h = parts[0];
        let rest = join_ch(parts.drop_first(), c);
        assert(j == h + seq![c] + rest);
        assert forall|k: int| 0 <= k < j.len() implies allowed(j[k]) by {
            if k < h.len() {
                assert(j[k] == h[k]);
            } else if k == h.len() {
                assert(j[k] == c);
            } else {
                assert(j[k] == rest[k - h.len() - 1]);
            }
        }
    }
}

/// The views of a sequence of strings.
pub open spec fn str_views(v: Seq<String>) -> Seq<Seq<char>> {
    v.map_values(|p: String| p@)
}

/// Splits `s` on the character `c`, returning the segments in order.
pub fn split_on(s: &str, c: char) -> (parts: Vec<String>)
    ensures
        str_views(parts@) == split_ch(s@, c),
        parts@.len() >= 1,
{
    let n = s.unicode_len();
    let mut parts: Vec<String> = Vec::new();
    let mut start: usize = 0;
    let mut i: usize = 0;
    proof {
        assert(s@.subrange(0, n as int) =~= s@);
        assert(str_views(parts@) =~= Seq::<Seq<char>>::empty());
        assert(str_views(parts@) + split_ch(s@, c) =~= split_ch(s@, c));
    }
    while i < n
        invariant
            start <= i <= n,
            n == s@.len(),
            forall|k: int| start <= k < i ==> s@[k] != c,
            str_views(parts@) + split_ch(s@.subrange(start as int, n as int), c) == split_ch(
                s@,
                c,
            ),
        decreases n - i,
    {
        let ch = s.get_char(i);
        if ch == c {
            let part = s.substring_char(start, i);
            let ghost old_parts = parts@;
            parts.push(String::from_str(part));
            proof {
                let rem = s@.subrange(start as int, n as int);
                assert(forall|k: int| 0 <= k < rem.len() ==> rem[k] == s@[start + k]);
                lemma_split_step(rem, c, i - start);
                assert(rem.subrange(0, i - start) =~= s@.subrange(start as int, i as int));
                assert(rem.subrange(i - start + 1, rem.len() as int) =~= s@.subrange(
                    i + 1,
                    n as int,
                ));
                assert(str_views(parts@) =~= str_views(old_parts).push(part@));
                assert((str_views(old_parts).push(part@)) + split_ch(
                    s@.subrange(i + 1, n as int),
                    c,
                ) =~= str_views(old_parts) + (seq![s@.subrange(start as int, i as int)] + split_ch(
                    s@.subrange(i + 1, n as int),
                    c,
                )));
            }
            start = i + 1;
        }
        i += 1;
    }
    let part = s.substring_char(start, n);
    let ghost old_parts = parts@;
    parts.push(String::from_str(part));
    proof {
        let rem = s@.subrange(start as int, n as int);
        assert(forall|k: int| 0 <= k < rem.len() ==> rem[k] == s@[start + k]);
        lemma_split_whole(rem, c);
        assert(str_views(parts@) =~= str_views(old_parts).push(part@));
        assert(str_views(old_parts).push(part@) =~= str_views(old_parts) + seq![rem]);
    }
    parts
}

/// Joins the given strings with `,` between them.
pub fn join_comma(parts: &Vec<String>) -> (s: String)
    ensures
        s@ == join_ch(str_views(parts@), ','),
{
    proof {
        reveal_strlit(",");
    }
    if parts.len() == 0 {
        return String::new();
    }
    let mut out = String::from_str(parts[0].as_str());
    let mut i: usize = 1;
    proof {
        assert(str_views(parts@.subrange(0, 1)) =~= seq![parts@[0]@]);
    }
    while i < parts.len()
        invariant
            1 <= i <= parts@.len(),
            out@ == join_ch(str_views(parts@.subrange(0, i as int)), ','),
        decreases parts@.len() - i,
    {
        let ghost pre = str_views(parts@.subrange(0, i as int));
        out.append(",");
        out.append(parts[i].as_str());
        proof {
            reveal_strlit(",");
            assert(","@ =~= seq![',']);
            lemma_join_push(pre, ',', parts@[i as int]@);
            assert(str_views(parts@.subrange(0, i + 1)) =~= pre.push(parts@[i as int]@));
            assert(out@ =~= join_ch(pre, ',') + seq![','] + parts@[i as int]@);
        }
        i += 1;
    }
    proof {
        assert(parts@.subrange(0, parts@.len() as int) =~= parts@);
    }
    out
}

} // verus!
