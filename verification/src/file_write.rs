//! The file writer: serializes a node collection back to the textual form.

use vstd::prelude::*;

use crate::codec::append_joined_ids;
use crate::codec::encode_prefix_spec;
use crate::errors::MdtError;
use crate::structs::code_char;
use crate::structs::opposite;
use crate::structs::Node;
use crate::structs::NodeType;
use crate::structs::NodeV;
use crate::structs::Nodes;
use crate::structs::NodesV;

verus! {

/// A run of `k` spaces.
pub open spec fn spaces(k: nat) -> Seq<char> {
    Seq::new(k, |i: int| ' ')
}

/// A node that the writer accepts: opposite-polarity parents only beside a
/// non-empty primary parent list.  (A value with the former and not the
/// latter has no textual form.)
pub open spec fn encodable(n: NodeV) -> bool {
    n.parent_idxs.len() == 0 ==> n.parent_idxs_diff_type.len() == 0
}

/// Whether the node's indentation width fits the platform's word.
pub open spec fn line_fits(n: NodeV) -> bool {
    n.level == 0 || 2 * ((n.level - 1) as nat) <= usize::MAX as nat
}

/// The line written for one node: a newline, then for a top-level node a
/// second newline (blocks are separated by a blank line), or for a nested
/// node the indent and the bullet; then the prefix and the text.
pub open spec fn render_node_line(n: NodeV) -> Seq<char> {
    if n.level == 0 {
        seq!['\n', '\n'] + encode_prefix_spec(n) + n.text
    } else {
        seq!['\n'] + spaces((2 * ((n.level - 1) as nat))) + seq!['*', ' '] + encode_prefix_spec(n)
            + n.text
    }
}

/// The concatenation of every node's line, in file order.
pub open spec fn render_nodes_rec(ns: Seq<NodeV>) -> Seq<char>
    decreases ns.len(),
{
    if ns.len() == 0 {
        Seq::<char>::empty()
    } else {
        render_nodes_rec(ns.drop_last()) + render_node_line(ns.last())
    }
}

/// The title line as written: the collection's own title, or, when that is
/// empty, one synthesized from the file stem.
pub open spec fn render_title(title: Seq<char>, stem: Seq<char>) -> Seq<char> {
    if title.len() > 0 {
        title
    } else {
        "# "@ + stem + " (md-decision-trees)"@
    }
}

/// The full rendered file: the title, then every node's line.
pub open spec fn render_spec(c: NodesV, stem: Seq<char>) -> Seq<char> {
    render_title(c.title, stem) + render_nodes_rec(c.nodes)
}

/// Convert a node kind to its single-letter string form.
pub fn to_node_start_string(type_is: &NodeType) -> (r: Result<String, ()>)
    ensures
        r matches Ok(s) && s@ == seq![code_char(*type_is)],
{
    proof {
        reveal_strlit("D");
        reveal_strlit("O");
        reveal_strlit("P");
        reveal_strlit("C");
        reveal_strlit("N");
    }
    let r = match type_is {
        NodeType::Decision => String::from_str("D"),
        NodeType::Option => String::from_str("O"),
        NodeType::Pro => String::from_str("P"),
        NodeType::Con => String::from_str("C"),
        NodeType::Note => String::from_str("N"),
    };
    proof {
        assert(r@ =~= seq![code_char(*type_is)]);
    }
    Ok(r)
}

/// Append the node's type prefix to `prefix`: nothing for an untyped node,
/// else the kind letter, the parent lists where they cannot be implicit,
/// and the closing `": "`.
pub fn add_opt_node_type(prefix: &mut String, node: &Node)
    requires
        encodable(node@),
    ensures
        final (prefix)@ == old(prefix)@ + encode_prefix_spec(node@),
{
    proof {
        reveal_strlit(",");
        reveal_strlit("-");
        reveal_strlit(": ");
    }
    let found_type = match node.type_is {
        Some(t) => t,
        None => {
            proof {
                assert(old(prefix)@ + encode_prefix_spec(node@) =~= prefix@);
            }
            return ;
        },
    };
    let type_str = match to_node_start_string(&found_type) {
        Ok(s) => s,
        Err(_) => {
            return ;
        },
    };
    prefix.append(type_str.as_str());

    let has_diff_type_parents: bool = (found_type == NodeType::Pro || found_type == NodeType::Con)
        && node.parent_idxs_diff_type.len() > 0;

    if node.parent_idxs.len() == 0 {
        // Implicitly a single parent of the node above, or a root.
    } else if node.parent_idxs.len() > 1 || has_diff_type_parents {
        prefix.append(",");
        append_joined_ids(prefix, &node.parent_idxs);
    }

    if has_diff_type_parents {
        prefix.append("-");
        let opp = match to_node_start_string(&crate::codec::opposite_exec(found_type)) {
            Ok(s) => s,
            Err(_) => {
                return ;
            },
        };
        prefix.append(opp.as_str());
        prefix.append(",");
        append_joined_ids(prefix, &node.parent_idxs_diff_type);
    }

    prefix.append(": ");
    proof {
        assert(prefix@ =~= old(prefix)@ + encode_prefix_spec(node@));
    }
}

/// Append `k` spaces to `s`.
fn push_spaces(s: &mut String, k: usize)
    ensures
        final (s)@ == old(s)@ + spaces(k as nat),
{
    proof {
        reveal_strlit(" ");
    }
    let mut i: usize = 0;
    while i < k
        invariant
            i <= k,
            s@ == old(s)@ + spaces(i as nat),
            " "@ == seq![' '],
        decreases k - i,
    {
        s.append(" ");
        proof {
            assert(s@ =~= old(s)@ + spaces((i + 1) as nat));
        }
        i += 1;
    }
    proof {
        assert(s@ =~= old(s)@ + spaces(k as nat));
    }
}

/// Serialize a collection to its textual form.  Walks the nodes in file
/// order; for each one writes a newline, the indentation or the blank
/// block separator, the encoded prefix, and the text.  When the stored
/// title is empty, a title is synthesized from `fallback_stem`.
pub fn render_nodes(nodes: &Nodes, fallback_stem: &str) -> (r: Result<String, MdtError>)
    requires
        forall|i: int| 0 <= i < nodes@.nodes.len() ==> encodable(#[trigger] nodes@.nodes[i]),
    ensures
        r matches Ok(s) ==> s@ == render_spec(nodes@, fallback_stem@),
        r is Ok <==> (forall|i: int|
            0 <= i < nodes@.nodes.len() ==> line_fits(#[trigger] nodes@.nodes[i])),
        r is Err ==> r == Err::<String, MdtError>(MdtError::InternalOverflow),
{
    let mut out = String::new();
    if !nodes.title.as_str().is_empty() {
        out.append(nodes.title.as_str());
    } else {
        out.append("# ");
        out.append(fallback_stem);
        out.append(" (md-decision-trees)");
    }
    proof {
        assert(out@ == render_title(nodes@.title, fallback_stem@));
    }
    proof {
        reveal_strlit("\n");
        reveal_strlit("* ");
    }
    let ghost title_part = out@;
    let mut i: usize = 0;
    proof {
        assert(nodes@.nodes.take(0) =~= Seq::<NodeV>::empty());
        assert(title_part + render_nodes_rec(nodes@.nodes.take(0)) =~= out@);
    }
    while i < nodes.nodes.len()
        invariant
            i <= nodes@.nodes.len(),
            nodes@.nodes.len() == nodes.nodes@.len(),
            forall|j: int| 0 <= j < nodes@.nodes.len() ==> encodable(#[trigger] nodes@.nodes[j]),
            title_part == render_title(nodes@.title, fallback_stem@),
            out@ == title_part + render_nodes_rec(nodes@.nodes.take(i as int)),
            forall|j: int| 0 <= j < i ==> line_fits(#[trigger] nodes@.nodes[j]),
            "\n"@ == seq!['\n'],
            "* "@ == seq!['*', ' '],
        decreases nodes@.nodes.len() - i,
    {
        let node = &nodes.nodes[i];
        proof {
            assert(node@ == nodes@.nodes[i as int]);
            assert(nodes@.nodes.take(i + 1).drop_last() =~= nodes@.nodes.take(i as int));
            assert(nodes@.nodes.take(i + 1).last() == nodes@.nodes[i as int]);
        }
        out.append("\n");
        if node.level == 0 {
            out.append("\n");
            add_opt_node_type(&mut out, node);
        } else {
            let lm: u32 = node.level - 1;
            let spaces_per_level: u64 = crate::file_parse::NUM_SPACES_PER_LEVEL as u64;
            proof {
                assert(spaces_per_level == 2);
            }
            let count: u64 = (lm as u64) * spaces_per_level;
            if count > (usize::MAX as u64) {
                proof {
                    assert(!line_fits(nodes@.nodes[i as int]));
                }
                return Err(MdtError::InternalOverflow);
            }
            push_spaces(&mut out, count as usize);
            out.append("* ");
            add_opt_node_type(&mut out, node);
        }
        out.append(node.text.as_str());
        proof {
            assert(out@ =~= title_part + render_nodes_rec(nodes@.nodes.take(i + 1)));
        }
        i += 1;
    }
    proof {
        assert(nodes@.nodes.take(nodes@.nodes.len() as int) =~= nodes@.nodes);
    }
    Ok(out)
}

} // verus!
