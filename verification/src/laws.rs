//! Proved properties relating the codec and the store.
//!
//! The round-trip law of the codec stands beside it in `codec`
//! (`lemma_format_parse_round_trip`); the laws here speak of the store's map
//! model: what adding leaves for a later check, and how repeated adds merge.

use vstd::prelude::*;

use crate::codec::{line_addr, line_names, line_valid, parse_spec};
use crate::ip::{is_valid_ip_chars, lemma_valid_ip_no_meta};
use crate::store::{check_spec, line_row, row_view, upsert_line};
use crate::text::{
    join_ch, lemma_split_join, lemma_split_parts_free, lemma_split_whole, split_ch,
};

verus! {

/// A valid IP string is its own address segment: it contains no comma, so
/// splitting it on commas leaves it whole.
pub proof fn lemma_valid_ip_line(a: Seq<char>)
    requires
        is_valid_ip_chars(a),
    ensures
        line_valid(a),
        line_addr(a) == a,
{
    lemma_valid_ip_no_meta(a);
    lemma_split_whole(a, ',');
    assert(split_ch(a, ',') == seq![a]);
}

/// Law: adding a valid IP string puts a record under exactly that address,
/// so a following check of the same string reports in scope.
pub proof fn lemma_add_then_check(
    m: Map<Seq<char>, (Seq<char>, Seq<char>, bool)>,
    a: Seq<char>,
    live: bool,
)
    requires
        is_valid_ip_chars(a),
    ensures
        line_valid(a),
        check_spec(upsert_line(m, a, live), a),
{
    lemma_valid_ip_line(a);
    assert(upsert_line(m, a, live) == m.insert(a, line_row(a, live)));
}

/// Law: a second add for the same address replaces the stored record; the
/// store then holds the second line's record under that address, whatever
/// the first add stored.
pub proof fn lemma_upsert_replaces(
    m: Map<Seq<char>, (Seq<char>, Seq<char>, bool)>,
    first: Seq<char>,
    second: Seq<char>,
    live1: bool,
    live2: bool,
)
    requires
        line_valid(first),
        line_valid(second),
        line_addr(first) == line_addr(second),
    ensures
        upsert_line(upsert_line(m, first, live1), second, live2) == m.insert(
            line_addr(second),
            line_row(second, live2),
        ),
{
    let m1 = upsert_line(m, first, live1);
    assert(upsert_line(m1, second, live2) =~= m.insert(
        line_addr(second),
        line_row(second, live2),
    ));
}

/// Law: the record stored for a line is listed back as the record the line
/// parses to: the joined names round-trip through the stored text. The one
/// line shape left out is a single empty name (a lone trailing comma), which
/// is stored as no names at all.
pub proof fn lemma_add_then_list(line: Seq<char>, live: bool)
    requires
        line_valid(line),
        line_names(line) != seq![Seq::<char>::empty()],
    ensures
        row_view(line_addr(line), line_row(line, live)) == parse_spec(line, live),
{
    let names = line_names(line);
    let joined = join_ch(names, ',');
    lemma_split_parts_free(line, ',');
    assert(forall|i: int|
        0 <= i < names.len() ==> #[trigger] names[i] == split_ch(line, ',')[i + 1]);
    if names.len() == 0 {
        assert(crate::store::names_of_joined(joined) =~= names);
    } else {
        if joined.len() == 0 {
            assert(names.len() == 1 && names[0].len() == 0);
            assert(names[0] =~= Seq::<char>::empty());
            assert(names =~= seq![Seq::<char>::empty()]);
            assert(false);
        }
        lemma_split_join(names, ',');
        assert(crate::store::names_of_joined(joined) == names);
    }
}

/// Law: a check matches only by full textual equality of the address; a
/// stored record never makes the check report any other string in scope.
pub proof fn lemma_check_exact(
    m: Map<Seq<char>, (Seq<char>, Seq<char>, bool)>,
    stored: Seq<char>,
    probe: Seq<char>,
    row: (Seq<char>, Seq<char>, bool),
)
    requires
        !m.contains_key(probe),
        stored != probe,
    ensures
        !check_spec(m.insert(stored, row), probe),
{
}

} // verus!

