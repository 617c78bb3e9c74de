//! The record codec: parsing one raw input line into a scope record, and
//! formatting a record back into its display line.
//!
//! A line has the shape `ADDRESS[,name1,name2,...][#comment]`. The names are
//! the comma-separated segments after the address, taken from the whole line;
//! the comment is everything after the last `#` of the whole line. A name
//! containing `#` is therefore misparsed as carrying a comment: a known
//! limitation, kept for fidelity to the wire format.

use vstd::prelude::*;

use crate::errors::ScopeError;
use crate::ip::{is_valid_ip, is_valid_ip_chars};
use crate::text::{join_ch, lemma_join_split, lemma_split_len, split_ch, split_on, str_views};

verus! {

/// One entry of the scope set.
pub struct ScopeRecord {
    /// The validated IP address text; the unique key of the record.
    pub address: String,
    /// The hostnames associated with the address, in input order.
    pub names: Vec<String>,
    /// A free-text annotation; empty if absent.
    pub comment: String,
    /// Whether the host was confirmed reachable; set by the caller.
    pub live: bool,
}

/// The mathematical shape of a record.
pub struct RecView {
    pub address: Seq<char>,
    pub names: Seq<Seq<char>>,
    pub comment: Seq<char>,
    pub live: bool,
}

impl View for ScopeRecord {
    type V = RecView;

    open spec fn view(&self) -> RecView {
        RecView {
            address: self.address@,
            names: str_views(self.names@),
            comment: self.comment@,
            live: self.live,
        }
    }
}

/// The address segment of a raw line: what stands before the first comma.
pub open spec fn line_addr(line: Seq<char>) -> Seq<char> {
    split_ch(line, ',')[0]
}

/// Whether a raw line can become a record: its address segment is valid IP text.
pub open spec fn line_valid(line: Seq<char>) -> bool {
    is_valid_ip_chars(line_addr(line))
}

/// The name segments of a raw line: every comma-separated segment after the address.
pub open spec fn line_names(line: Seq<char>) -> Seq<Seq<char>> {
    split_ch(line, ',').drop_first()
}

/// The comment of a raw line: everything after the last `#`, or empty if none.
pub open spec fn line_comment(line: Seq<char>) -> Seq<char> {
    let hp = split_ch(line, '#');
    if hp.len() > 1 {
        hp.last()
    } else {
        Seq::empty()
    }
}

/// The record a raw line parses to, given the caller's liveness flag.
pub open spec fn parse_spec(line: Seq<char>, live: bool) -> RecView {
    RecView {
        address: line_addr(line),
        names: line_names(line),
        comment: line_comment(line),
        live,
    }
}

/// Parses one raw line into a record. The address segment must be valid IP
/// text; any other line is rejected and nothing is stored.
pub fn parse_line(line: &str, live: bool) -> (r: Result<ScopeRecord, ScopeError>)
    ensures
        r is Ok <==> line_valid(line@),
        r is Ok ==> (r->Ok_0)@ == parse_spec(line@, live),
        r is Err ==> r->Err_0 == ScopeError::InvalidAddress,
{
    let parts = split_on(line, ',');
    proof {
        lemma_split_len(line@, ',');
        assert(str_views(parts@)[0] == parts@[0]@);
    }
    if !is_valid_ip(parts[0].as_str()) {
        return Err(ScopeError::InvalidAddress);
    }
    let address = parts[0].clone();
    let mut names: Vec<String> = Vec::new();
    let mut i: usize = 1;
    proof {
        assert(str_views(names@) =~= str_views(parts@).subrange(1, 1));
    }
    while i < parts.len()
        invariant
            1 <= i <= parts@.len(),
            str_views(names@) == str_views(parts@).subrange(1, i as int),
        decreases parts@.len() - i,
    {
        let ghost old_names = names@;
        names.push(parts[i].clone());
        proof {
            assert(str_views(parts@)[i as int] == parts@[i as int]@);
            assert(str_views(names@) =~= str_views(old_names).push(parts@[i as int]@));
            assert(str_views(parts@).subrange(1, i + 1) =~= str_views(parts@).subrange(
                1,
                i as int,
            ).push(str_views(parts@)[i as int]));
        }
        i += 1;
    }
    proof {
        assert(str_views(parts@).subrange(1, parts@.len() as int) =~= str_views(
            parts@,
        ).drop_first());
    }
    let hparts = split_on(line, '#');
    let comment = if hparts.len() > 1 {
        let c = hparts[hparts.len() - 1].clone();
        proof {
            assert(str_views(hparts@)[hparts@.len() - 1] == hparts@[hparts@.len() - 1]@);
        }
        c
    } else {
        String::new()
    };
    Ok(ScopeRecord { address, names, comment, live })
}

/// The display line of a record: the address alone, or the address followed
/// by the comma-joined names. Comment and liveness are not displayed here.
pub open spec fn format_spec(v: RecView) -> Seq<char> {
    if v.names.len() == 0 {
        v.address
    } else {
        v.address + seq![','] + join_ch(v.names, ',')
    }
}

/// Formats a record into its display line (see `format_spec`).
pub fn format_record(rec: &ScopeRecord) -> (s: String)
    ensures
        s@ == format_spec(rec@),
{
    if rec.names.len() == 0 {
        rec.address.clone()
    } else {
        let mut out = rec.address.clone();
        out.append(",");
        let joined = crate::text::join_comma(&rec.names);
        out.append(joined.as_str());
        proof {
            reveal_strlit(",");
            assert(","@ =~= seq![',']);
            assert(out@ =~= rec@.address + seq![','] + join_ch(rec@.names, ','));
        }
        out
    }
}

impl ScopeRecord {
    /// The rendered line of the record: the address alone when `ip_only` is
    /// set, the full display line otherwise.
    pub fn display_line(&self, ip_only: bool) -> (s: String)
        ensures
            ip_only ==> s@ == self@.address,
            !ip_only ==> s@ == format_spec(self@),
    {
        if ip_only {
            self.address.clone()
        } else {
            format_record(self)
        }
    }
}

/// Formatting a parsed line reproduces the line exactly, whenever the line
/// carries no `#` comment marker.
pub proof fn lemma_format_parse_round_trip(line: Seq<char>, live: bool)
    requires
        line_valid(line),
        forall|k: int| 0 <= k < line.len() ==> line[k] != '#',
    ensures
        format_spec(parse_spec(line, live)) == line,
{
    let parts = split_ch(line, ',');
    lemma_split_len(line, ',');
    lemma_join_split(line, ',');
    if parts.len() == 1 {
        assert(parts.drop_first() =~= Seq::<Seq<char>>::empty());
        assert(join_ch(parts, ',') == parts[0]);
    } else {
        assert(join_ch(parts, ',') == parts[0] + seq![','] + join_ch(parts.drop_first(), ','));
    }
}

} // verus!
