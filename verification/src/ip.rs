//! Syntactic validation of IPv4 and IPv6 address text.
//!
//! An IPv4 address is four dot-separated decimal octets, each of one to three
//! digits, without leading zeros, with value at most 255. An IPv6 address is
//! colon-separated groups of one to four hex digits: eight groups, or seven
//! when the last is an embedded IPv4 address, or a single `::` standing for
//! one or more zero groups, with an optional embedded IPv4 address ending the
//! part after the `::` (an embedded address counts as two groups, and at most
//! seven groups may be written beside a `::`).

use vstd::prelude::*;

use crate::text::{
    all_chars_in, lemma_join_all_chars, lemma_join_split, lemma_split_len, split_ch, split_on,
    str_views,
};

verus! {

pub open spec fn is_digit_ch(c: char) -> bool {
    '0' as u32 <= c as u32 <= '9' as u32
}

pub open spec fn digit_val(c: char) -> int {
    c as u32 - '0' as u32
}

pub open spec fn is_hex_ch(c: char) -> bool {
    is_digit_ch(c) || 'a' as u32 <= c as u32 <= 'f' as u32 || 'A' as u32 <= c as u32 <= 'F' as u32
}

pub open spec fn all_digits(s: Seq<char>) -> bool {
    forall|i: int| 0 <= i < s.len() ==> is_digit_ch(#[trigger] s[i])
}

/// The value of a decimal digit string, most significant digit first.
pub open spec fn dec_val(s: Seq<char>) -> int
    decreases s.len(),
{
    if s.len() == 0 {
        0
    } else {
        dec_val(s.drop_last()) * 10 + digit_val(s.last())
    }
}

/// One decimal octet of an IPv4 address: one to three digits, no leading
/// zero, value at most 255.
pub open spec fn is_dec_octet(s: Seq<char>) -> bool {
    &&& 1 <= s.len() <= 3
    &&& all_digits(s)
    &&& (s.len() > 1 ==> s[0] != '0')
    &&& dec_val(s) <= 255
}

pub open spec fn is_ipv4_chars(s: Seq<char>) -> bool {
    let ps = split_ch(s, '.');
    ps.len() == 4 && (forall|i: int| 0 <= i < ps.len() ==> is_dec_octet(#[trigger] ps[i]))
}

/// One group of an IPv6 address: one to four hex digits.
pub open spec fn is_hex_group(s: Seq<char>) -> bool {
    1 <= s.len() <= 4 && (forall|i: int| 0 <= i < s.len() ==> is_hex_ch(#[trigger] s[i]))
}

pub open spec fn all_hex_groups(ps: Seq<Seq<char>>) -> bool {
    forall|i: int| 0 <= i < ps.len() ==> is_hex_group(#[trigger] ps[i])
}

/// Index of the first occurrence of `::` in `s`, or `-1` if none.
pub open spec fn find_dcolon(s: Seq<char>) -> int
    decreases s.len(),
{
    if s.len() < 2 {
        -1
    } else if s[0] == ':' && s[1] == ':' {
        0
    } else {
        let r = find_dcolon(s.drop_first());
        if r < 0 {
            -1
        } else {
            r + 1
        }
    }
}

/// `find_dcolon` returns either `-1` (and then no two adjacent colons occur)
/// or the position of the first pair of adjacent colons.
pub proof fn lemma_find_dcolon(s: Seq<char>)
    ensures
        find_dcolon(s) == -1 || (0 <= find_dcolon(s) < s.len() - 1 && s[find_dcolon(s)] == ':'
            && s[find_dcolon(s) + 1] == ':'),
        forall|j: int| 0 <= j < find_dcolon(s) ==> !((#[trigger] s[j]) == ':' && s[j + 1] == ':'),
        find_dcolon(s) == -1 ==> forall|j: int|
            0 <= j < s.len() - 1 ==> !((#[trigger] s[j]) == ':' && s[j + 1] == ':'),
    decreases s.len(),
{
    if s.len() < 2 {
    } else if s[0] == ':' && s[1] == ':' {
    } else {
        lemma_find_dcolon(s.drop_first());
        let r = find_dcolon(s);
        if r == -1 {
            assert forall|j: int| 0 <= j < s.len() - 1 implies !((#[trigger] s[j]) == ':' && s[j + 1] == ':') by {
                if j > 0 {
                    assert(s.drop_first()[j - 1] == s[j]);
                    assert(s.drop_first()[j] == s[j + 1]);
                }
            }
        } else {
            assert(s.drop_first()[r - 1] == s[r]);
            assert(s.drop_first()[r] == s[r + 1]);
            assert forall|j: int| 0 <= j < r implies !((#[trigger] s[j]) == ':' && s[j + 1] == ':') by {
                if j > 0 {
                    assert(s.drop_first()[j - 1] == s[j]);
                    assert(s.drop_first()[j] == s[j + 1]);
                }
            }
        }
    }
}

/// If the first pair of adjacent colons in `s` is at position `i`, then
/// `find_dcolon` returns `i`.
pub proof fn lemma_find_dcolon_at(s: Seq<char>, i: int)
    requires
        0 <= i < s.len() - 1,
        s[i] == ':',
        s[i + 1] == ':',
        forall|j: int| 0 <= j < i ==> !((#[trigger] s[j]) == ':' && s[j + 1] == ':'),
    ensures
        find_dcolon(s) == i,
    decreases s.len(),
{
    if s[0] == ':' && s[1] == ':' {
        assert(i == 0);
    } else {
        assert(s.drop_first()[i - 1] == s[i]);
        assert(s.drop_first()[i] == s[i + 1]);
        assert forall|j: int| 0 <= j < i - 1 implies !((#[trigger] s.drop_first()[j]) == ':'
            && s.drop_first()[j + 1] == ':') by {
            assert(s.drop_first()[j] == s[j + 1]);
            assert(s.drop_first()[j + 1] == s[j + 2]);
        }
        lemma_find_dcolon_at(s.drop_first(), i - 1);
    }
}

/// The part before the `::`: empty, or colon-separated hex groups.
pub open spec fn head_groups_ok(head: Seq<char>) -> bool {
    head.len() == 0 || all_hex_groups(split_ch(head, ':'))
}

pub open spec fn head_weight(head: Seq<char>) -> int {
    if head.len() == 0 {
        0
    } else {
        split_ch(head, ':').len() as int
    }
}

/// The part after the `::`: empty, or colon-separated hex groups of which the
/// last may instead be an embedded IPv4 address.
pub open spec fn tail_groups_ok(tail: Seq<char>) -> bool {
    if tail.len() == 0 {
        true
    } else {
        let ps = split_ch(tail, ':');
        all_hex_groups(ps.drop_last()) && (is_hex_group(ps.last()) || is_ipv4_chars(ps.last()))
    }
}

pub open spec fn tail_weight(tail: Seq<char>) -> int {
    if tail.len() == 0 {
        0
    } else {
        let ps = split_ch(tail, ':');
        ps.len() as int - 1 + (if is_hex_group(ps.last()) {
            1int
        } else {
            2int
        })
    }
}

pub open spec fn is_ipv6_chars(s: Seq<char>) -> bool {
    let k = find_dcolon(s);
    if k < 0 {
        let ps = split_ch(s, ':');
        ||| (ps.len() == 8 && all_hex_groups(ps))
        ||| (ps.len() == 7 && all_hex_groups(ps.drop_last()) && is_ipv4_chars(ps.last()))
    } else {
        let head = s.subrange(0, k);
        let tail = s.subrange(k + 2, s.len() as int);
        head_groups_ok(head) && tail_groups_ok(tail) && head_weight(head) + tail_weight(tail) <= 7
    }
}

/// Valid IP address text: IPv4 or IPv6 syntax.
pub open spec fn is_valid_ip_chars(s: Seq<char>) -> bool {
    is_ipv4_chars(s) || is_ipv6_chars(s)
}

proof fn lemma_dec_val_bounds(s: Seq<char>)
    requires
        all_digits(s),
        s.len() <= 3,
    ensures
        0 <= dec_val(s),
        s.len() <= 1 ==> dec_val(s) <= 9,
        s.len() <= 2 ==> dec_val(s) <= 99,
        dec_val(s) <= 999,
    decreases s.len(),
{
    if s.len() > 0 {
        assert(all_digits(s.drop_last())) by {
            assert(forall|i: int| 0 <= i < s.len() - 1 ==> s.drop_last()[i] == s[i]);
        }
        lemma_dec_val_bounds(s.drop_last());
        assert(0 <= digit_val(s.last()) <= 9);
    }
}

/// Whether `s` is a decimal octet (see `is_dec_octet`).
fn is_dec_octet_str(s: &str) -> (b: bool)
    ensures
        b == is_dec_octet(s@),
{
    let n = s.unicode_len();
    if n < 1 || n > 3 {
        return false;
    }
    let mut i: usize = 0;
    let mut val: u32 = 0;
    while i < n
        invariant
            0 <= i <= n,
            n == s@.len(),
            n <= 3,
            all_digits(s@.subrange(0, i as int)),
            val == dec_val(s@.subrange(0, i as int)),
            val <= 999,
        decreases n - i,
    {
        let c = s.get_char(i);
        let cv = c as u32;
        if cv < '0' as u32 || cv > '9' as u32 {
            return false;
        }
        let ghost pre = s@.subrange(0, i as int);
        proof {
            assert(s@.subrange(0, i + 1).drop_last() =~= pre);
            assert(s@.subrange(0, i + 1).last() == s@[i as int]);
            assert(all_digits(s@.subrange(0, i + 1))) by {
                assert(forall|j: int| 0 <= j < i ==> s@.subrange(0, i + 1)[j] == pre[j]);
            }
            lemma_dec_val_bounds(s@.subrange(0, i + 1));
        }
        val = val * 10 + (cv - '0' as u32);
        i += 1;
    }
    proof {
        assert(s@.subrange(0, n as int) =~= s@);
    }
    if n > 1 && s.get_char(0) == '0' {
        return false;
    }
    val <= 255
}

/// Whether `s` is a group of one to four hex digits (see `is_hex_group`).
fn is_hex_group_str(s: &str) -> (b: bool)
    ensures
        b == is_hex_group(s@),
{
    let n = s.unicode_len();
    if n < 1 || n > 4 {
        return false;
    }
    let mut i: usize = 0;
    while i < n
        invariant
            0 <= i <= n,
            n == s@.len(),
            forall|j: int| 0 <= j < i ==> is_hex_ch(#[trigger] s@[j]),
        decreases n - i,
    {
        let c = s.get_char(i);
        let cv = c as u32;
        let dig = cv >= '0' as u32 && cv <= '9' as u32;
        let lower = cv >= 'a' as u32 && cv <= 'f' as u32;
        let upper = cv >= 'A' as u32 && cv <= 'F' as u32;
        if !(dig || lower || upper) {
            return false;
        }
        i += 1;
    }
    true
}

/// Whether `s` is IPv4 address text (see `is_ipv4_chars`).
pub fn is_ipv4(s: &str) -> (b: bool)
    ensures
        b == is_ipv4_chars(s@),
{
    let parts = split_on(s, '.');
    if parts.len() != 4 {
        return false;
    }
    let mut i: usize = 0;
    while i < 4
        invariant
            0 <= i <= 4,
            parts@.len() == 4,
            str_views(parts@) == split_ch(s@, '.'),
            forall|j: int| 0 <= j < i ==> is_dec_octet(#[trigger] split_ch(s@, '.')[j]),
        decreases 4 - i,
    {
        if !is_dec_octet_str(parts[i].as_str()) {
            proof {
                assert(str_views(parts@)[i as int] == parts@[i as int]@);
            }
            return false;
        }
        i += 1;
    }
    true
}

/// Checks that every segment of `parts` in `[from, to)` is a hex group.
fn all_hex_range(parts: &Vec<String>, from: usize, to: usize) -> (b: bool)
    requires
        from <= to <= parts@.len(),
    ensures
        b == (forall|j: int| from <= j < to ==> is_hex_group(#[trigger] str_views(parts@)[j])),
{
    let mut i: usize = from;
    while i < to
        invariant
            from <= i <= to <= parts@.len(),
            forall|j: int| from <= j < i ==> is_hex_group(#[trigger] str_views(parts@)[j]),
        decreases to - i,
    {
        if !is_hex_group_str(parts[i].as_str()) {
            proof {
                assert(str_views(parts@)[i as int] == parts@[i as int]@);
            }
            return false;
        }
        i += 1;
    }
    true
}

/// Whether `s` is IPv6 address text (see `is_ipv6_chars`).
pub fn is_ipv6(s: &str) -> (b: bool)
    ensures
        b == is_ipv6_chars(s@),
{
    let n = s.unicode_len();
    let mut i: usize = 0;
    while i + 1 < n && !(s.get_char(i) == ':' && s.get_char(i + 1) == ':')
        invariant
            n == s@.len(),
            0 <= i,
            i + 1 <= n || i == 0,
            forall|j: int| 0 <= j < i ==> !((#[trigger] s@[j]) == ':' && s@[j + 1] == ':'),
        decreases n - i,
    {
        i += 1;
    }
    if i + 1 >= n {
        // no `::` anywhere
        proof {
            lemma_find_dcolon(s@);
            if find_dcolon(s@) >= 0 {
                let k = find_dcolon(s@);
                assert(!(s@[k] == ':' && s@[k + 1] == ':'));
                assert(false);
            }
        }
        let parts = split_on(s, ':');
        if parts.len() == 8 {
            all_hex_range(&parts, 0, 8)
        } else if parts.len() == 7 {
            proof {
                assert(split_ch(s@, ':').drop_last() =~= str_views(parts@).subrange(0, 6));
                assert(forall|j: int|
                    0 <= j < 6 ==> split_ch(s@, ':').drop_last()[j] == #[trigger] str_views(
                        parts@,
                    )[j]);
            }
            if !all_hex_range(&parts, 0, 6) {
                return false;
            }
            is_ipv4(parts[6].as_str())
        } else {
            false
        }
    } else {
        let k = i;
        proof {
            lemma_find_dcolon_at(s@, k as int);
        }
        let head = s.substring_char(0, k);
        let tail = s.substring_char(k + 2, n);
        proof {
            lemma_split_len(head@, ':');
            lemma_split_len(tail@, ':');
        }
        let hw: usize;
        if head.unicode_len() == 0 {
            hw = 0;
        } else {
            let hp = split_on(head, ':');
            if !all_hex_range(&hp, 0, hp.len()) {
                return false;
            }
            hw = hp.len();
        }
        if hw > 7 {
            // already over the limit, whatever follows the `::`
            return false;
        }
        let tw: usize;
        if tail.unicode_len() == 0 {
            tw = 0;
        } else {
            let tp = split_on(tail, ':');
            proof {
                crate::text::lemma_split_count(tail@, ':');
            }
            let last = tp.len() - 1;
            proof {
                assert(split_ch(tail@, ':').drop_last() =~= str_views(tp@).subrange(
                    0,
                    last as int,
                ));
                assert(forall|j: int|
                    0 <= j < last ==> split_ch(tail@, ':').drop_last()[j] == #[trigger] str_views(
                        tp@,
                    )[j]);
            }
            if !all_hex_range(&tp, 0, last) {
                return false;
            }
            if is_hex_group_str(tp[last].as_str()) {
                tw = tp.len();
            } else if is_ipv4(tp[last].as_str()) {
                tw = tp.len() + 1;
            } else {
                return false;
            }
        }
        if tw > 7 {
            return false;
        }
        hw + tw <= 7
    }
}

/// Whether `s` is syntactically valid IP address text, IPv4 or IPv6.
pub fn is_valid_ip(s: &str) -> (b: bool)
    ensures
        b == is_valid_ip_chars(s@),
{
    if is_ipv4(s) {
        true
    } else {
        is_ipv6(s)
    }
}

/// The characters that may occur in valid IP address text.
pub open spec fn ip_char(c: char) -> bool {
    is_hex_ch(c) || c == '.' || c == ':'
}

/// Every character of a valid IPv4 address is an IP character.
proof fn lemma_ipv4_all_chars(s: Seq<char>)
    requires
        is_ipv4_chars(s),
    ensures
        all_chars_in(s, |c: char| ip_char(c)),
{
    let ps = split_ch(s, '.');
    lemma_join_split(s, '.');
    assert forall|i: int| 0 <= i < ps.len() implies all_chars_in(
        #[trigger] ps[i],
        |c: char| ip_char(c),
    ) by {
        assert(is_dec_octet(ps[i]));
    }
    lemma_join_all_chars(ps, '.', |c: char| ip_char(c));
}

/// Every character of a sequence of colon-separated hex groups (the last of
/// which may instead be an embedded IPv4 address) is an IP character.
proof fn lemma_groups_all_chars(part: Seq<char>)
    requires
        head_groups_ok(part) || tail_groups_ok(part),
    ensures
        all_chars_in(part, |c: char| ip_char(c)),
{
    if part.len() == 0 {
    } else {
        let ps = split_ch(part, ':');
        lemma_join_split(part, ':');
        lemma_split_len(part, ':');
        assert forall|i: int| 0 <= i < ps.len() implies all_chars_in(
            #[trigger] ps[i],
            |c: char| ip_char(c),
        ) by {
            if all_hex_groups(ps) {
                assert(is_hex_group(ps[i]));
            } else if i < ps.len() - 1 {
                assert(ps.drop_last()[i] == ps[i]);
                assert(is_hex_group(ps[i]));
            } else {
                assert(ps[i] == ps.last());
                if is_ipv4_chars(ps.last()) {
                    lemma_ipv4_all_chars(ps.last());
                }
            }
        }
        lemma_join_all_chars(ps, ':', |c: char| ip_char(c));
    }
}

/// Every character of valid IP address text is a hex digit, a dot, or a colon.
pub proof fn lemma_valid_ip_all_chars(s: Seq<char>)
    requires
        is_valid_ip_chars(s),
    ensures
        all_chars_in(s, |c: char| ip_char(c)),
{
    if is_ipv4_chars(s) {
        lemma_ipv4_all_chars(s);
    } else {
        let k = find_dcolon(s);
        lemma_find_dcolon(s);
        if k < 0 {
            lemma_groups_all_chars(s);
        } else {
            let head = s.subrange(0, k);
            let tail = s.subrange(k + 2, s.len() as int);
            lemma_groups_all_chars(head);
            lemma_groups_all_chars(tail);
            assert forall|j: int| 0 <= j < s.len() implies ip_char(s[j]) by {
                let f = |c: char| ip_char(c);
                if j < k {
                    assert(f(head[j]));
                } else if j < k + 2 {
                    assert(s[j] == ':');
                } else {
                    assert(f(tail[j - k - 2]));
                }
            }
        }
    }
}

/// Valid IP address text contains no comma and no hash mark.
pub proof fn lemma_valid_ip_no_meta(s: Seq<char>)
    requires
        is_valid_ip_chars(s),
    ensures
        forall|k: int| 0 <= k < s.len() ==> s[k] != ',' && s[k] != '#',
{
    lemma_valid_ip_all_chars(s);
    assert forall|k: int| 0 <= k < s.len() implies s[k] != ',' && s[k] != '#' by {
        let f = |c: char| ip_char(c);
        assert(f(s[k]));
    }
}

} // verus!
