//! The file reader: validates the header line and streams the remaining
//! lines through the bullet parser.

use vstd::prelude::*;

use crate::bullet_file_parser::init_state;
use crate::bullet_file_parser::run;
use crate::bullet_file_parser::BulletFileParser;
use crate::bullet_file_parser::ParserSt;
use crate::codec::first_index;
use crate::codec::lemma_first_index;
use crate::errors::MdtError;
use crate::structs::Node;
use crate::structs::Nodes;
use crate::structs::NodesV;

verus! {

/// Spaces of indentation per nesting level.
pub const NUM_SPACES_PER_LEVEL: u32 = 2;

/// The marker the first line of every file must contain.
pub const REQUIRED_HEADER: &'static str = "(md-decision-trees)";

/// The marker as a spec-level character sequence.
pub open spec fn header_marker() -> Seq<char> {
    "(md-decision-trees)"@
}

/// A line with a final carriage return removed; how a `\r\n` terminator is
/// reduced to the `\n` split.
pub open spec fn strip_tail_cr(s: Seq<char>) -> Seq<char> {
    if s.len() > 0 && s.last() == '\r' {
        s.drop_last()
    } else {
        s
    }
}

/// The lines of a text: split at `\n`, with a `\r` immediately before the
/// split removed, and the final line ending optional.
pub open spec fn split_lines(s: Seq<char>) -> Seq<Seq<char>>
    decreases s.len(),
{
    if s.len() == 0 {
        Seq::<Seq<char>>::empty()
    } else {
        let i = first_index(s, '\n');
        if !(0 <= i < s.len()) {
            seq![s]
        } else {
            seq![strip_tail_cr(s.subrange(0, i))] + split_lines(s.subrange(i + 1, s.len() as int))
        }
    }
}

/// Whether `needle` occurs contiguously in `hay`.
pub open spec fn contains_seq(hay: Seq<char>, needle: Seq<char>) -> bool {
    exists|k: int|
        0 <= k && k + needle.len() <= hay.len() && #[trigger] hay.subrange(k, k + needle.len())
            == needle
}

/// The whole parse, as a function of the file's text: the first line must
/// carry the header marker and becomes the title; every further line runs
/// through the bullet parser.
pub open spec fn parse_spec(content: Seq<char>) -> Result<NodesV, MdtError> {
    let ls = split_lines(content);
    if ls.len() == 0 || !contains_seq(ls[0], header_marker()) {
        Err(MdtError::MissingHeader)
    } else {
        match run(init_state(), ls.drop_first()) {
            Ok(st) => Ok(NodesV { title: ls[0], nodes: st.hist }),
            Err(e) => Err(e),
        }
    }
}

/// Split a text into its lines, as [`split_lines`] describes.
fn split_lines_exec(content: &str) -> (r: Vec<String>)
    ensures
        r.deep_view() == split_lines(content@),
{
    let n = content.unicode_len();
    let mut lines: Vec<String> = Vec::new();
    let mut start: usize = 0;
    proof {
        assert(lines.deep_view() + split_lines(content@.subrange(0, n as int)) =~= split_lines(
            content@.subrange(0, n as int),
        ));
        assert(content@.subrange(0, n as int) =~= content@);
    }
    while start < n
        invariant
            start <= n,
            n == content@.len(),
            split_lines(content@) == lines.deep_view() + split_lines(
                content@.subrange(start as int, n as int),
            ),
        decreases n - start,
    {
        let ghost rem = content@.subrange(start as int, n as int);
        proof {
            lemma_first_index(rem, '\n');
        }
        match crate::codec::find_char_range(content, start, n, '\n') {
            Some(m) => {
                proof {
                    assert(rem.subrange(0, m - start) =~= content@.subrange(
                        start as int,
                        m as int,
                    ));
                    assert(rem.subrange(m - start + 1, rem.len() as int) =~= content@.subrange(
                        m + 1,
                        n as int,
                    ));
                }
                let mut end = m;
                if end > start && content.get_char(end - 1) == '\r' {
                    end = end - 1;
                }
                proof {
                    assert(content@.subrange(start as int, end as int) =~= strip_tail_cr(
                        content@.subrange(start as int, m as int),
                    ));
                }
                let ghost prev_dv = lines.deep_view();
                let line = String::from_str(content.substring_char(start, end));
                let ghost line_view = line@;
                lines.push(line);
                proof {
                    assert(lines.deep_view() =~= prev_dv.push(line_view));
                }
                start = m + 1;
            },
            None => {
                let line = String::from_str(content.substring_char(start, n));
                lines.push(line);
                proof {
                    assert(line@ =~= rem);
                    assert(split_lines(rem) == seq![rem]);
                    assert(lines.deep_view() + split_lines(content@.subrange(n as int, n as int))
                        =~= split_lines(content@));
                }
                start = n;
            },
        }
        proof {
            assert(split_lines(content@) =~= lines.deep_view() + split_lines(
                content@.subrange(start as int, n as int),
            ));
        }
    }
    proof {
        assert(content@.subrange(n as int, n as int) =~= Seq::<char>::empty());
        assert(lines.deep_view() + split_lines(content@.subrange(n as int, n as int))
            =~= lines.deep_view());
    }
    lines
}

/// Whether a line contains the header marker.
fn contains_marker(line: &str) -> (r: bool)
    ensures
        r == contains_seq(line@, header_marker()),
{
    proof {
        reveal_strlit("(md-decision-trees)");
    }
    let marker = REQUIRED_HEADER;
    let m = marker.unicode_len();
    let n = line.unicode_len();
    if n < m {
        proof {
            assert(!contains_seq(line@, header_marker()));
        }
        return false;
    }
    let mut k: usize = 0;
    while k <= n - m
        invariant
            m == header_marker().len(),
            marker@ == header_marker(),
            n == line@.len(),
            m <= n,
            k <= n - m + 1,
            forall|k2: int|
                0 <= k2 < k ==> #[trigger] line@.subrange(k2, k2 + header_marker().len())
                    != header_marker(),
        decreases n - k,
    {
        proof {
            reveal_strlit("(md-decision-trees)");
        }
        let mut j: usize = 0;
        let mut hit = true;
        while j < m
            invariant
                m == header_marker().len(),
                marker@ == header_marker(),
                n == line@.len(),
                k + m <= n,
                j <= m,
                hit ==> forall|j2: int|
                    0 <= j2 < j ==> #[trigger] line@[k + j2] == header_marker()[j2],
                !hit ==> line@.subrange(k as int, k + header_marker().len()) != header_marker(),
            decreases m - j,
        {
            if line.get_char(k + j) != marker.get_char(j) {
                proof {
                    let sub = line@.subrange(k as int, k + header_marker().len());
                    assert(sub[j as int] == line@[k + j]);
                }
                hit = false;
                j = m;
            } else {
                j += 1;
            }
        }
        if hit {
            proof {
                assert forall|i: int| 0 <= i < header_marker().len() implies line@.subrange(
                    k as int,
                    k + header_marker().len(),
                )[i] == header_marker()[i] by {
                    assert(line@.subrange(k as int, k + header_marker().len())[i] == line@[k + i]);
                }
                assert(line@.subrange(k as int, k + header_marker().len()) =~= header_marker());
            }
            return true;
        }
        k += 1;
    }
    proof {
        assert forall|k2: int|
            0 <= k2 && k2 + header_marker().len() <= line@.len() implies #[trigger] line@.subrange(
            k2,
            k2 + header_marker().len(),
        ) != header_marker() by {
            assert(k2 < k);
        }
    }
    false
}

/// Parse a whole file's text: the first line must contain the header
/// marker and becomes the title verbatim; every remaining line runs
/// through [`BulletFileParser::handle_line`], and the nodes are collected
/// in file order.
pub fn parse_content(content: &str) -> (r: Result<Nodes, MdtError>)
    ensures
        ({
            let sp = parse_spec(content@);
            match r {
                Ok(ns) => sp matches Ok(v) && ns@ == v,
                Err(e) => sp == Err::<NodesV, MdtError>(e),
            }
        }),
{
    let lines = split_lines_exec(content);
    let ghost ls = split_lines(content@);
    if lines.len() == 0 {
        return Err(MdtError::MissingHeader);
    }
    if !contains_marker(lines[0].as_str()) {
        return Err(MdtError::MissingHeader);
    }
    let title = lines[0].clone();
    let mut node_list: Vec<Node> = Vec::new();
    let mut parser = BulletFileParser::new();
    let mut i: usize = 1;
    proof {
        assert(ls.drop_first() =~= ls.subrange(1, ls.len() as int));
        assert(node_list.deep_view() =~= Seq::<crate::structs::NodeV>::empty());
        assert(ls[0] == lines@[0]@);
    }
    while i < lines.len()
        invariant
            1 <= i <= lines@.len(),
            lines.deep_view() == ls,
            ls == split_lines(content@),
            ls.len() > 0,
            contains_seq(ls[0], header_marker()),
            title@ == ls[0],
            run(init_state(), ls.drop_first()) == run(
                parser@,
                ls.subrange(i as int, ls.len() as int),
            ),
            parser@.hist == node_list.deep_view(),
        decreases lines@.len() - i,
    {
        let ghost rest = ls.subrange(i as int, ls.len() as int);
        proof {
            assert(rest[0] == ls[i as int]);
            assert(lines@[i as int]@ == ls[i as int]);
            assert(rest.drop_first() =~= ls.subrange(i + 1, ls.len() as int));
        }
        let ghost pst = parser@;
        match parser.handle_line(&lines[i]) {
            Err(e) => {
                proof {
                    assert(run(pst, rest) == Err::<ParserSt, MdtError>(e));
                    assert(parse_spec(content@) == Err::<NodesV, MdtError>(e));
                }
                return Err(e);
            },
            Ok(None) => {
                proof {
                    assert(run(pst, rest) == run(parser@, rest.drop_first()));
                }
            },
            Ok(Some(node)) => {
                node_list.push(node);
                proof {
                    assert(run(pst, rest) == run(parser@, rest.drop_first()));
                    assert(node_list.deep_view() =~= parser@.hist);
                }
            },
        }
        i += 1;
    }
    proof {
        assert(ls.subrange(ls.len() as int, ls.len() as int) =~= Seq::<Seq<char>>::empty());
    }
    Ok(Nodes { title, nodes: node_list })
}

} // verus!