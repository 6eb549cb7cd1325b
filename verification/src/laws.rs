//! The engine's laws: invariants of every successful parse, proved once over
//! the spec-level parser that [`crate::parse_content`] is specified against.

use vstd::prelude::*;

use crate::bullet_file_parser::analyze;
use crate::bullet_file_parser::create_step;
use crate::bullet_file_parser::init_state;
use crate::bullet_file_parser::is_bullet_line;
use crate::bullet_file_parser::leading_spaces;
use crate::bullet_file_parser::pop_ge;
use crate::bullet_file_parser::run;
use crate::bullet_file_parser::step;
use crate::bullet_file_parser::ParserSt;
use crate::bullet_file_parser::PotentialParent;
use crate::bullet_file_parser::RawOut;
use crate::bullet_file_parser::StepRes;
use crate::codec::decode_shape;
use crate::codec::parse_idlist;
use crate::codec::PrefixShape;
use crate::errors::MdtError;
use crate::file_parse::parse_spec;
use crate::structs::NodeType;
use crate::structs::NodeV;

verus! {

/// Every node's `file_order` equals its position: the identifiers are dense.
pub open spec fn density(ns: Seq<NodeV>) -> bool {
    forall|i: int| 0 <= i < ns.len() ==> (#[trigger] ns[i]).file_order == i
}

/// Whether a node kind is one of the two comparative polarities.
pub open spec fn pro_con(t: Option<NodeType>) -> bool {
    t == Some(NodeType::Pro) || t == Some(NodeType::Con)
}

/// The shape of a node whose primary parent was inferred from the ancestor
/// stack (rather than written out in a comparative prefix): at most one
/// primary parent and no opposite-polarity parents, and when the parent is
/// present it lies strictly earlier, strictly shallower, and no node
/// between the two is at or above the parent's level.
pub open spec fn implicit_shape(ns: Seq<NodeV>, i: int) -> bool {
    &&& ns[i].parent_idxs_diff_type.len() == 0
    &&& ns[i].parent_idxs.len() <= 1
    &&& ns[i].parent_idxs.len() == 1 ==> {
        let p = ns[i].parent_idxs[0] as int;
        &&& 0 <= p < i
        &&& ns[p].level < ns[i].level
        &&& forall|k: int| p < k < i ==> (#[trigger] ns[k]).level > ns[p].level
    }
}

/// What holds of every node array a successful parse yields.
pub open spec fn nodes_invariants(ns: Seq<NodeV>) -> bool {
    &&& density(ns)
    &&& forall|i: int| 0 <= i < ns.len() ==> implicit_shape(ns, i) || pro_con(ns[i].type_is)
    &&& forall|i: int|
        0 <= i < ns.len() && (#[trigger] ns[i]).parent_idxs_diff_type.len() > 0 ==> pro_con(
            ns[i].type_is,
        ) && ns[i].parent_idxs.len() > 0
    &&& forall|i: int, j: int|
        0 <= i <= j < ns.len() && (#[trigger] ns[i]).type_is is Some ==> (
        #[trigger] ns[j]).type_is is Some
}

/// The inductive well-formedness of a parser state: the history is dense,
/// the ancestor stack points into the history with strictly increasing
/// levels, everything emitted after a stack entry is strictly deeper, the
/// lock is engaged whenever a typed node exists, and the emitted nodes
/// satisfy the collection invariants.
pub open spec fn st_wf(st: ParserSt) -> bool {
    &&& st.hist.len() == st.cnt
    &&& forall|i: int| 0 <= i < st.stack.len() ==> (#[trigger] st.stack[i]).idx < st.cnt
    &&& forall|i: int|
        0 <= i < st.stack.len() ==> st.hist[(#[trigger] st.stack[i]).idx as int].level
            == st.stack[i].level
    &&& forall|i: int, j: int|
        0 <= i < j < st.stack.len() ==> (#[trigger] st.stack[i]).level < (
        #[trigger] st.stack[j]).level
    &&& forall|i: int, k: int|
        0 <= i < st.stack.len() && (#[trigger] st.stack[i]).idx < k < st.hist.len() ==> (
        #[trigger] st.hist[k]).level > st.stack[i].level
    &&& (!st.locked ==> forall|i: int| 0 <= i < st.hist.len() ==> (#[trigger] st.hist[i]).type_is is None)
    &&& nodes_invariants(st.hist)
}

/// What [`pop_ge`] returns: a prefix of the stack whose last entry, if any,
/// is strictly shallower than `level`, the dropped entries all being at or
/// below `level`.
pub proof fn lemma_pop_ge(q: Seq<PotentialParent>, level: u32)
    ensures
        ({
            let p = pop_ge(q, level);
            &&& p.len() <= q.len()
            &&& forall|i: int| 0 <= i < p.len() ==> p[i] == q[i]
            &&& (p.len() > 0 ==> p.last().level < level)
        }),
    decreases q.len(),
{
    if q.len() == 0 {
    } else if q.last().level >= level {
        lemma_pop_ge(q.drop_last(), level);
        assert(forall|i: int| 0 <= i < q.len() - 1 ==> q.drop_last()[i] == q[i]);
    } else {
    }
}

/// A well-formed id list holds at least one value.
pub proof fn lemma_parse_idlist_len(s: Seq<char>)
    ensures
        parse_idlist(s) matches Some(ids) ==> ids.len() >= 1,
    decreases s.len(),
{
    let c = crate::codec::first_index(s, ',');
    if 0 <= c < s.len() {
        lemma_parse_idlist_len(s.subrange(c + 1, s.len() as int));
    }
}

/// A comparative reading always carries a Pro/Con kind and at least one
/// same-polarity value.
pub proof fn lemma_comparative_shape(raw: Seq<char>)
    ensures
        decode_shape(raw) matches PrefixShape::Comparative(k, s, d) ==> (k == NodeType::Pro || k
            == NodeType::Con) && s.len() >= 1,
{
    let kpos = crate::codec::find_colon_space(raw);
    if kpos >= 0 {
        let pre = raw.subrange(0, kpos);
        if crate::codec::comparative_opening(pre) {
            let body = pre.subrange(2, pre.len() as int);
            let d = crate::codec::first_index(body, '-');
            if d < 0 {
                lemma_parse_idlist_len(body);
            } else {
                lemma_parse_idlist_len(body.subrange(0, d));
            }
        }
    }
}

/// One parser step preserves well-formedness; an emitted node is appended
/// to the history, which is otherwise untouched.
pub proof fn lemma_step_wf(st: ParserSt, line: Seq<char>)
    requires
        st_wf(st),
    ensures
        step(st, line) matches StepRes::Keep(st2) ==> st2 == st,
        step(st, line) matches StepRes::Emit(st2, nv) ==> st_wf(st2) && st2.hist == st.hist.push(
            nv,
        ),
{
    let res = step(st, line);
    if !(res is Emit) {
        return ;
    }
    let level: nat = if is_bullet_line(line) {
        (leading_spaces(line) / 2 + 1) as nat
    } else {
        0
    };
    let raw: Seq<char> = if is_bullet_line(line) {
        line.subrange(leading_spaces(line) + 2, line.len() as int)
    } else {
        line
    };
    assert(res == create_step(st, level, raw));
    lemma_comparative_shape(raw);
    let a = analyze(st.locked, raw);
    match a {
        RawOut::RFail(_) => {
            assert(false);
        },
        RawOut::REmit { type_is, same, diff, text, engages } => {
            assert(!engages ==> type_is is None);
            assert(same.len() > 0 ==> pro_con(type_is));
            assert(diff.len() > 0 ==> pro_con(type_is) && same.len() > 0);
            let lvl32 = level as u32;
            let popped = pop_ge(st.stack, lvl32);
            lemma_pop_ge(st.stack, lvl32);
            let parents = if same.len() > 0 {
                same
            } else if popped.len() > 0 {
                seq![popped.last().idx]
            } else {
                Seq::<u32>::empty()
            };
            let node = NodeV {
                text,
                type_is,
                file_order: st.cnt,
                level: lvl32,
                parent_idxs: parents,
                parent_idxs_diff_type: diff,
            };
            let stack2 = popped.push(PotentialParent { level: lvl32, idx: st.cnt });
            let hist2 = st.hist.push(node);
            let st2 = ParserSt {
                cnt: (st.cnt + 1) as u32,
                stack: stack2,
                locked: st.locked || engages,
                hist: hist2,
            };
            assert(res == StepRes::Emit(st2, node));

            // Entries kept on the stack are all strictly shallower than the
            // new node: the stack's levels increase and its new last old
            // entry is below `lvl32`.
            assert forall|i: int| 0 <= i < popped.len() implies (#[trigger] popped[i]).level
                < lvl32 by {
                assert(popped[i] == st.stack[i]);
                assert(popped.last() == st.stack[popped.len() - 1]);
                if i < popped.len() - 1 {
                    assert(st.stack[i].level < st.stack[popped.len() - 1].level);
                }
            }

            assert forall|i: int| 0 <= i < stack2.len() implies (#[trigger] stack2[i]).idx
                < st2.cnt by {
                if i < popped.len() {
                    assert(stack2[i] == st.stack[i]);
                }
            }

            assert forall|i: int|
                0 <= i < stack2.len() implies hist2[(#[trigger] stack2[i]).idx as int].level
                == stack2[i].level by {
                if i < popped.len() {
                    assert(stack2[i] == st.stack[i]);
                    assert(hist2[stack2[i].idx as int] == st.hist[stack2[i].idx as int]);
                } else {
                    assert(hist2[st.cnt as int] == node);
                }
            }

            assert forall|i: int, j: int|
                0 <= i < j < stack2.len() implies (#[trigger] stack2[i]).level < (
            #[trigger] stack2[j]).level by {
                if j < popped.len() {
                    assert(stack2[i] == st.stack[i] && stack2[j] == st.stack[j]);
                } else {
                    assert(stack2[i] == popped[i]);
                }
            }

            assert forall|i: int, k: int|
                0 <= i < stack2.len() && (#[trigger] stack2[i]).idx < k < hist2.len() implies (
            #[trigger] hist2[k]).level > stack2[i].level by {
                if i < popped.len() {
                    assert(stack2[i] == st.stack[i]);
                    if k < st.hist.len() {
                        assert(st.hist[k].level > st.stack[i].level);
                    } else {
                        assert(hist2[k] == node);
                        assert(popped[i].level < lvl32);
                    }
                } else {
                    assert(stack2[i].idx == st.cnt);
                    assert(k >= hist2.len());
                }
            }

            if !st2.locked {
                assert forall|i: int| 0 <= i < hist2.len() implies (
                #[trigger] hist2[i]).type_is is None by {
                    if i < st.hist.len() {
                        assert(st.hist[i].type_is is None);
                    } else {
                        assert(hist2[i] == node);
                    }
                }
            }

            assert(density(hist2)) by {
                assert forall|i: int| 0 <= i < hist2.len() implies (#[trigger] hist2[i]).file_order
                    == i by {
                    if i < st.hist.len() {
                        assert(hist2[i] == st.hist[i]);
                    }
                }
            }

            assert forall|i: int| 0 <= i < hist2.len() implies implicit_shape(hist2, i) || pro_con(
                hist2[i].type_is,
            ) by {
                if i < st.hist.len() {
                    assert(hist2[i] == st.hist[i]);
                    if implicit_shape(st.hist, i) {
                        assert(implicit_shape(hist2, i)) by {
                            if st.hist[i].parent_idxs.len() == 1 {
                                let p = st.hist[i].parent_idxs[0] as int;
                                assert(forall|k: int|
                                    p < k < i ==> (#[trigger] hist2[k]).level == st.hist[k].level);
                            }
                        }
                    }
                } else {
                    assert(hist2[i] == node);
                    if same.len() == 0 {
                        assert(diff.len() == 0);
                        if popped.len() > 0 {
                            let e = popped.last();
                            assert(e == st.stack[popped.len() - 1]);
                            let p = e.idx as int;
                            assert(st.hist[p].level == e.level);
                            assert(hist2[p].level == e.level);
                            assert(e.level < lvl32);
                            assert forall|k: int| p < k < i implies (#[trigger] hist2[k]).level
                                > hist2[p].level by {
                                assert(k < st.hist.len());
                                assert(st.hist[k].level > e.level);
                            }
                            assert(implicit_shape(hist2, i));
                        } else {
                            assert(implicit_shape(hist2, i));
                        }
                    } else {
                        assert(pro_con(node.type_is));
                    }
                }
            }

            assert forall|i: int|
                0 <= i < hist2.len() && (#[trigger] hist2[i]).parent_idxs_diff_type.len()
                > 0 implies pro_con(hist2[i].type_is) && hist2[i].parent_idxs.len() > 0 by {
                if i < st.hist.len() {
                    assert(hist2[i] == st.hist[i]);
                } else {
                    assert(hist2[i] == node);
                }
            }

            assert forall|i: int, j: int|
                0 <= i <= j < hist2.len() && (#[trigger] hist2[i]).type_is is Some implies (
            #[trigger] hist2[j]).type_is is Some by {
                if j < st.hist.len() {
                    assert(hist2[i] == st.hist[i] && hist2[j] == st.hist[j]);
                } else if i < st.hist.len() {
                    assert(hist2[i] == st.hist[i]);
                    assert(hist2[j] == node);
                    if node.type_is is None {
                        assert(!engages);
                        assert(!st.locked);
                        assert(st.hist[i].type_is is None);
                    }
                }
            }

            assert(st_wf(st2));
        },
    }
}

/// Running the parser from a well-formed state over any lines ends, when it
/// succeeds, in a well-formed state.
pub proof fn lemma_run_wf(st: ParserSt, lines: Seq<Seq<char>>)
    requires
        st_wf(st),
    ensures
        run(st, lines) matches Ok(st2) ==> st_wf(st2),
    decreases lines.len(),
{
    if lines.len() == 0 {
    } else {
        lemma_step_wf(st, lines[0]);
        match step(st, lines[0]) {
            StepRes::Fail(_) => {
            },
            StepRes::Keep(st2) => {
                lemma_run_wf(st2, lines.drop_first());
            },
            StepRes::Emit(st2, _) => {
                lemma_run_wf(st2, lines.drop_first());
            },
        }
    }
}

/// Every successful parse satisfies the collection invariants.
pub proof fn lemma_parse_invariants(content: Seq<char>)
    ensures
        parse_spec(content) matches Ok(v) ==> nodes_invariants(v.nodes),
{
    if parse_spec(content) is Ok {
        let ls = crate::file_parse::split_lines(content);
        assert(st_wf(init_state()));
        lemma_run_wf(init_state(), ls.drop_first());
    }
}

/// Density: in every successful parse, the node at position `i` has
/// `file_order` exactly `i`.
pub proof fn lemma_parse_density(content: Seq<char>)
    ensures
        parse_spec(content) matches Ok(v) ==> forall|i: int|
            0 <= i < v.nodes.len() ==> (#[trigger] v.nodes[i]).file_order == i,
{
    lemma_parse_invariants(content);
}

/// Causal parents: in every successful parse, a node that is not Pro/Con
/// typed has at most one primary parent, no opposite-polarity parents, and
/// its parent index, when present, is strictly smaller than its own file
/// order.  (A Pro/Con node may carry an explicit comparative list, which
/// the engine records verbatim.)
pub proof fn lemma_parse_causal_parents(content: Seq<char>)
    ensures
        parse_spec(content) matches Ok(v) ==> forall|i: int|
            0 <= i < v.nodes.len() && !pro_con((#[trigger] v.nodes[i]).type_is) ==> {
                &&& v.nodes[i].parent_idxs_diff_type.len() == 0
                &&& v.nodes[i].parent_idxs.len() <= 1
                &&& forall|j: int|
                    0 <= j < v.nodes[i].parent_idxs.len() ==> (
                    #[trigger] v.nodes[i].parent_idxs[j]) < i
            },
{
    lemma_parse_invariants(content);
    if parse_spec(content) is Ok {
        let v = parse_spec(content)->Ok_0;
        assert forall|i: int|
            0 <= i < v.nodes.len() && !pro_con((#[trigger] v.nodes[i]).type_is) implies {
            &&& v.nodes[i].parent_idxs_diff_type.len() == 0
            &&& v.nodes[i].parent_idxs.len() <= 1
            &&& forall|j: int|
                0 <= j < v.nodes[i].parent_idxs.len() ==> (#[trigger] v.nodes[i].parent_idxs[j])
                    < i
        } by {
            assert(implicit_shape(v.nodes, i));
            assert forall|j: int| 0 <= j < v.nodes[i].parent_idxs.len() implies (
            #[trigger] v.nodes[i].parent_idxs[j]) < i by {
                assert(j == 0);
            }
        }
    }
}

/// Level monotonicity: in every successful parse, the implicit parent of a
/// node that is not Pro/Con typed is strictly shallower, and no node
/// between the parent and the child sits at or above the parent's level.
pub proof fn lemma_parse_level_monotonicity(content: Seq<char>)
    ensures
        parse_spec(content) matches Ok(v) ==> forall|i: int|
            0 <= i < v.nodes.len() && !pro_con((#[trigger] v.nodes[i]).type_is) ==> implicit_shape(
                v.nodes,
                i,
            ),
{
    lemma_parse_invariants(content);
}

/// Comparative polarity: in every successful parse, a node with
/// opposite-polarity parents is Pro/Con typed and also names at least one
/// same-polarity parent.
pub proof fn lemma_parse_comparative_polarity(content: Seq<char>)
    ensures
        parse_spec(content) matches Ok(v) ==> forall|i: int|
            0 <= i < v.nodes.len() && (#[trigger] v.nodes[i]).parent_idxs_diff_type.len() > 0
                ==> pro_con(v.nodes[i].type_is) && v.nodes[i].parent_idxs.len() > 0,
{
    lemma_parse_invariants(content);
}

/// Typed lock, success side: in every successful parse, once one node
/// carries a type every later node does; a typed line is never followed by
/// an accepted untyped one.
pub proof fn lemma_parse_typed_lock(content: Seq<char>)
    ensures
        parse_spec(content) matches Ok(v) ==> forall|i: int, j: int|
            0 <= i <= j < v.nodes.len() && (#[trigger] v.nodes[i]).type_is is Some ==> (
            #[trigger] v.nodes[j]).type_is is Some,
{
    lemma_parse_invariants(content);
}

/// Codec round trip: for a typed node whose lists the encoder writes out
/// (or leaves empty), decoding `encode_prefix(n) + n.text` gives back
/// exactly the node's type, its parent lists and its text.  A node whose
/// single primary parent stays implicit decodes to an empty list instead —
/// the parser re-infers that parent from the ancestor stack.
pub proof fn lemma_codec_round_trip(n: NodeV, locked: bool)
    requires
        n.type_is is Some,
        n.parent_idxs_diff_type.len() > 0 ==> pro_con(n.type_is) && n.parent_idxs.len() > 0,
        n.parent_idxs_diff_type.len() == 0 && n.parent_idxs.len() > 0 ==> n.parent_idxs.len() >= 2
            && pro_con(n.type_is),
    ensures
        analyze(locked, crate::codec::encode_prefix_spec(n) + n.text) == (RawOut::REmit {
            type_is: n.type_is,
            same: n.parent_idxs,
            diff: n.parent_idxs_diff_type,
            text: n.text,
            engages: true,
        }),
{
    crate::codec::lemma_prefix_round_trip(n);
    let s = crate::codec::encode_prefix_spec(n) + n.text;
    if n.parent_idxs.len() == 0 && n.parent_idxs_diff_type.len() == 0 {
        assert(decode_shape(s) == PrefixShape::Plain(n.type_is->0));
        assert(Seq::<u32>::empty() =~= n.parent_idxs);
        assert(Seq::<u32>::empty() =~= n.parent_idxs_diff_type);
    } else {
        let same_n = crate::codec::u32s_as_nats(n.parent_idxs);
        let diff_n = crate::codec::u32s_as_nats(n.parent_idxs_diff_type);
        assert(decode_shape(s) == PrefixShape::Comparative(n.type_is->0, same_n, diff_n));
        assert(crate::codec::ids_fit(same_n) && crate::codec::ids_fit(diff_n));
        assert(crate::bullet_file_parser::nats_as_u32s(same_n) =~= n.parent_idxs);
        assert(crate::bullet_file_parser::nats_as_u32s(diff_n) =~= n.parent_idxs_diff_type);
    }
}

/// Whether a text holds no line feed.
pub open spec fn no_newline(s: Seq<char>) -> bool {
    forall|j: int| 0 <= j < s.len() ==> (#[trigger] s[j]) != '\n'
}

/// Whether every line of a sequence holds no line feed.
pub open spec fn lines_clean(lines: Seq<Seq<char>>) -> bool {
    forall|i: int| 0 <= i < lines.len() ==> no_newline(#[trigger] lines[i])
}

/// The textual facts of one parsed node that let its rendering be read
/// back: its text spans one line; an untyped node's text carries no
/// decodable prefix (else it would have been typed); and an untyped
/// top-level node's text has no bullet form (else it would have been read
/// as a bullet).
pub open spec fn replay_shape_at(n: NodeV) -> bool {
    &&& no_newline(n.text)
    &&& n.type_is is None ==> decode_shape(n.text) is Untyped
    &&& (n.type_is is None && n.level == 0) ==> !is_bullet_line(n.text) && n.text.len() > 0
}

/// [`replay_shape_at`], for every node of a collection.
pub open spec fn replay_shape(ns: Seq<NodeV>) -> bool {
    forall|i: int| 0 <= i < ns.len() ==> replay_shape_at(#[trigger] ns[i])
}

/// Every line that [`crate::file_parse::split_lines`] yields is free of
/// line feeds.
pub proof fn lemma_split_lines_clean(s: Seq<char>)
    ensures
        lines_clean(crate::file_parse::split_lines(s)),
    decreases s.len(),
{
    let ls = crate::file_parse::split_lines(s);
    if s.len() == 0 {
    } else {
        let i = crate::codec::first_index(s, '\n');
        crate::codec::lemma_first_index(s, '\n');
        if !(0 <= i < s.len()) {
            assert(no_newline(s));
        } else {
            lemma_split_lines_clean(s.subrange(i + 1, s.len() as int));
            let head = crate::file_parse::strip_tail_cr(s.subrange(0, i));
            assert(no_newline(head)) by {
                assert(forall|j: int|
                    0 <= j < head.len() ==> (#[trigger] head[j]) == s.subrange(0, i)[j]);
            }
            assert forall|k: int| 0 <= k < ls.len() implies no_newline(#[trigger] ls[k]) by {
                if k >= 1 {
                    assert(ls[k] == crate::file_parse::split_lines(
                        s.subrange(i + 1, s.len() as int),
                    )[k - 1]);
                }
            }
        }
    }
}

/// One parser step preserves the replay shape of the history, given that
/// the line itself spans one line of text.
pub proof fn lemma_step_replay_shape(st: ParserSt, line: Seq<char>)
    requires
        replay_shape(st.hist),
        no_newline(line),
    ensures
        step(st, line) matches StepRes::Emit(st2, nv) ==> replay_shape(st2.hist),
{
    let res = step(st, line);
    if !(res is Emit) {
        return ;
    }
    let bullet = is_bullet_line(line);
    let level: nat = if bullet {
        (leading_spaces(line) / 2 + 1) as nat
    } else {
        0
    };
    let raw: Seq<char> = if bullet {
        line.subrange(leading_spaces(line) + 2, line.len() as int)
    } else {
        line
    };
    crate::bullet_file_parser::lemma_leading_spaces(line);
    assert(no_newline(raw)) by {
        if bullet {
            assert(forall|j: int|
                0 <= j < raw.len() ==> (#[trigger] raw[j]) == line[leading_spaces(line) + 2 + j]);
        }
    }
    assert(res == create_step(st, level, raw));
    match analyze(st.locked, raw) {
        RawOut::RFail(_) => {
            assert(false);
        },
        RawOut::REmit { type_is, same, diff, text, engages } => {
            assert(no_newline(text)) by {
                if !(decode_shape(raw) is Untyped) {
                    let k = crate::codec::find_colon_space(raw);
                    crate::codec::lemma_find_colon_space(raw);
                    assert(text == crate::codec::decode_rest(raw));
                    assert(forall|j: int|
                        0 <= j < text.len() ==> (#[trigger] text[j]) == raw[k + 2 + j]);
                }
            }
            match res {
                StepRes::Emit(st2, nv) => {
                    assert(replay_shape_at(nv)) by {
                        if nv.type_is is None {
                            assert(decode_shape(raw) is Untyped);
                            assert(nv.text == raw);
                            if nv.level == 0 {
                                assert(!bullet);
                            }
                        }
                    }
                    assert forall|i: int| 0 <= i < st2.hist.len() implies replay_shape_at(
                        #[trigger] st2.hist[i],
                    ) by {
                        if i < st.hist.len() {
                            assert(st2.hist[i] == st.hist[i]);
                        }
                    }
                },
                _ => {
                },
            }
        },
    }
}

/// Running the parser over one-line texts preserves the replay shape.
pub proof fn lemma_run_replay_shape(st: ParserSt, lines: Seq<Seq<char>>)
    requires
        replay_shape(st.hist),
        lines_clean(lines),
    ensures
        run(st, lines) matches Ok(st2) ==> replay_shape(st2.hist),
    decreases lines.len(),
{
    if lines.len() == 0 {
    } else {
        lemma_step_replay_shape(st, lines[0]);
        assert(lines_clean(lines.drop_first())) by {
            assert(forall|i: int|
                0 <= i < lines.len() - 1 ==> (#[trigger] lines.drop_first()[i]) == lines[i + 1]);
        }
        match step(st, lines[0]) {
            StepRes::Fail(_) => {
            },
            StepRes::Keep(st2) => {
                lemma_run_replay_shape(st2, lines.drop_first());
            },
            StepRes::Emit(st2, _) => {
                lemma_run_replay_shape(st2, lines.drop_first());
            },
        }
    }
}

/// The ancestor stack a node sequence leaves behind: each node pops the
/// entries at or below its level and pushes itself.
pub open spec fn stack_after(ns: Seq<NodeV>) -> Seq<PotentialParent>
    decreases ns.len(),
{
    if ns.len() == 0 {
        Seq::<PotentialParent>::empty()
    } else {
        let n = ns.last();
        pop_ge(stack_after(ns.drop_last()), n.level).push(
            PotentialParent { level: n.level, idx: n.file_order },
        )
    }
}

/// Whether any node of the sequence engaged the typed-file lock.
pub open spec fn locked_after(ns: Seq<NodeV>) -> bool
    decreases ns.len(),
{
    if ns.len() == 0 {
        false
    } else {
        locked_after(ns.drop_last()) || ns.last().type_is is Some
    }
}

/// The parser state that emitting exactly `ns` leaves behind.
pub open spec fn state_after(ns: Seq<NodeV>) -> ParserSt {
    ParserSt { cnt: ns.len() as u32, stack: stack_after(ns), locked: locked_after(ns), hist: ns }
}

/// The primary parent list the ancestor stack yields at a depth.
pub open spec fn implicit_of(q: Seq<PotentialParent>, level: u32) -> Seq<u32> {
    let p = pop_ge(q, level);
    if p.len() > 0 {
        seq![p.last().idx]
    } else {
        Seq::<u32>::empty()
    }
}

/// Which collections the writer's implicit encoding reproduces: every node
/// printed without an explicit parent list (at most one primary parent, no
/// opposite-polarity parents) must carry exactly the parent the ancestor
/// stack re-infers at its position.  Parses violate this only where a
/// comparative prefix named a single parent other than the stack's.
pub open spec fn replay_ok(ns: Seq<NodeV>) -> bool {
    forall|i: int|
        0 <= i < ns.len() && (#[trigger] ns[i]).parent_idxs_diff_type.len() == 0
            && ns[i].parent_idxs.len() <= 1 ==> ns[i].parent_idxs == implicit_of(
            stack_after(ns.take(i)),
            ns[i].level,
        )
}

/// Whether no node text ends with a carriage return.  A final `\r` would
/// be folded into the following line ending on a re-read.
pub open spec fn crlf_clean(ns: Seq<NodeV>) -> bool {
    forall|i: int|
        0 <= i < ns.len() && (#[trigger] ns[i]).text.len() > 0 ==> ns[i].text.last() != '\r'
}

/// A rendered node's line without its leading line separators.
pub open spec fn full_line(n: NodeV) -> Seq<char> {
    if n.level == 0 {
        crate::codec::encode_prefix_spec(n) + n.text
    } else {
        crate::file_write::spaces(2 * ((n.level - 1) as nat)) + seq!['*', ' ']
            + crate::codec::encode_prefix_spec(n) + n.text
    }
}

/// The lines a rendered node contributes: top-level nodes sit after a
/// blank separator line.
pub open spec fn node_lines(n: NodeV) -> Seq<Seq<char>> {
    if n.level == 0 {
        seq![Seq::<char>::empty(), full_line(n)]
    } else {
        seq![full_line(n)]
    }
}

/// The lines all rendered nodes contribute, in order.
pub open spec fn lines_of(ns: Seq<NodeV>) -> Seq<Seq<char>>
    decreases ns.len(),
{
    if ns.len() == 0 {
        Seq::<Seq<char>>::empty()
    } else {
        node_lines(ns[0]) + lines_of(ns.drop_first())
    }
}

/// [`crate::file_write::render_nodes_rec`] peels from the front as well:
/// the first node's line, then the rest.
pub proof fn lemma_render_rec_front(ns: Seq<NodeV>)
    requires
        ns.len() > 0,
    ensures
        crate::file_write::render_nodes_rec(ns) == crate::file_write::render_node_line(ns[0])
            + crate::file_write::render_nodes_rec(ns.drop_first()),
    decreases ns.len(),
{
    if ns.len() == 1 {
        assert(ns.drop_last() =~= Seq::<NodeV>::empty());
        assert(ns.drop_first() =~= Seq::<NodeV>::empty());
        assert(ns.last() == ns[0]);
        assert(Seq::<char>::empty() + crate::file_write::render_node_line(ns[0])
            =~= crate::file_write::render_node_line(ns[0]) + Seq::<char>::empty());
    } else {
        lemma_render_rec_front(ns.drop_last());
        assert(ns.drop_last()[0] == ns[0]);
        assert(ns.drop_last().drop_first() =~= ns.drop_first().drop_last());
        assert(ns.drop_first().last() == ns.last());
        assert((crate::file_write::render_node_line(ns[0]) + crate::file_write::render_nodes_rec(
            ns.drop_first().drop_last(),
        )) + crate::file_write::render_node_line(ns.last())
            =~= crate::file_write::render_node_line(ns[0]) + (
        crate::file_write::render_nodes_rec(ns.drop_first().drop_last())
            + crate::file_write::render_node_line(ns.last())));
    }
}

/// The shape of a rendered node's line: non-empty, one line of text, and
/// no trailing carriage return.
pub proof fn lemma_full_line_shape(n: NodeV)
    requires
        replay_shape_at(n),
        n.type_is is None && n.level == 0 ==> n.text.len() > 0,
        n.text.len() > 0 ==> n.text.last() != '\r',
    ensures
        full_line(n).len() > 0,
        no_newline(full_line(n)),
        full_line(n).last() != '\r',
{
    let fl = full_line(n);
    let e = crate::codec::encode_prefix_spec(n);
    if n.type_is is Some {
        crate::codec::lemma_encode_shape(n);
    } else {
        assert(e =~= Seq::<char>::empty());
    }
    let head: Seq<char> = if n.level == 0 {
        Seq::<char>::empty()
    } else {
        crate::file_write::spaces(2 * ((n.level - 1) as nat)) + seq!['*', ' ']
    };
    assert(fl =~= head + e + n.text);
    assert(no_newline(fl)) by {
        assert forall|j: int| 0 <= j < fl.len() implies (#[trigger] fl[j]) != '\n' by {
            if j < head.len() {
                assert(fl[j] == head[j]);
            } else if j < head.len() + e.len() {
                assert(fl[j] == e[j - head.len()]);
            } else {
                assert(fl[j] == n.text[j - head.len() - e.len()]);
            }
        }
    }
    if n.text.len() > 0 {
        assert(fl.last() == n.text.last());
    } else if n.type_is is Some {
        assert(fl.last() == e.last());
    } else {
        assert(n.level >= 1);
        assert(fl.last() == ' ');
    }
}

/// Splitting a rendering into lines: a current line followed by the
/// remaining nodes' rendering splits into that line and the nodes' lines.
pub proof fn lemma_split_render_tail(cur: Seq<char>, ns: Seq<NodeV>)
    requires
        cur.len() > 0,
        no_newline(cur),
        cur.last() != '\r',
        forall|i: int| 0 <= i < ns.len() ==> replay_shape_at(#[trigger] ns[i]),
        forall|i: int|
            0 <= i < ns.len() && (#[trigger] ns[i]).type_is is None && ns[i].level == 0
                ==> ns[i].text.len() > 0,
        forall|i: int|
            0 <= i < ns.len() && (#[trigger] ns[i]).text.len() > 0 ==> ns[i].text.last() != '\r',
    ensures
        crate::file_parse::split_lines(cur + crate::file_write::render_nodes_rec(ns)) == seq![cur]
            + lines_of(ns),
    decreases ns.len(),
{
    let whole = cur + crate::file_write::render_nodes_rec(ns);
    if ns.len() == 0 {
        assert(whole =~= cur);
        crate::codec::lemma_first_index(cur, '\n');
        assert(crate::codec::first_index(cur, '\n') == -1);
        assert(crate::file_parse::split_lines(cur) == seq![cur]);
        assert(seq![cur] + lines_of(ns) =~= seq![cur]);
    } else {
        let n = ns[0];
        lemma_render_rec_front(ns);
        lemma_full_line_shape(n);
        let fl = full_line(n);
        let sep: Seq<char> = if n.level == 0 {
            seq!['\n', '\n']
        } else {
            seq!['\n']
        };
        assert(crate::file_write::render_node_line(n) =~= sep + fl);
        let rest = crate::file_write::render_nodes_rec(ns.drop_first());
        assert forall|i: int| 0 <= i < ns.drop_first().len() implies replay_shape_at(
            #[trigger] ns.drop_first()[i],
        ) by {
            assert(ns.drop_first()[i] == ns[i + 1]);
        }
        assert forall|i: int|
            0 <= i < ns.drop_first().len() && (#[trigger] ns.drop_first()[i]).type_is is None
                && ns.drop_first()[i].level == 0 implies ns.drop_first()[i].text.len() > 0 by {
            assert(ns.drop_first()[i] == ns[i + 1]);
        }
        assert forall|i: int|
            0 <= i < ns.drop_first().len() && (#[trigger] ns.drop_first()[i]).text.len()
                > 0 implies ns.drop_first()[i].text.last() != '\r' by {
            assert(ns.drop_first()[i] == ns[i + 1]);
        }
        lemma_split_render_tail(fl, ns.drop_first());
        let tail1 = fl + rest;
        if n.level == 0 {
            let tail0 = seq!['\n'] + tail1;
            assert(whole =~= cur + seq!['\n'] + tail0);
            lemma_split_step(cur, tail0);
            assert(tail0 =~= Seq::<char>::empty() + seq!['\n'] + tail1);
            lemma_split_step(Seq::<char>::empty(), tail1);
            assert(crate::file_parse::split_lines(whole) == seq![cur] + (seq![
                Seq::<char>::empty(),
            ] + crate::file_parse::split_lines(tail1)));
            assert(seq![cur] + (seq![Seq::<char>::empty()] + (seq![fl] + lines_of(
                ns.drop_first(),
            ))) =~= seq![cur] + lines_of(ns));
        } else {
            assert(whole =~= cur + seq!['\n'] + tail1);
            lemma_split_step(cur, tail1);
            assert(seq![cur] + (seq![fl] + lines_of(ns.drop_first())) =~= seq![cur] + lines_of(
                ns,
            ));
        }
    }
}

/// One split step: a line-feed after a clean segment cuts exactly there.
pub proof fn lemma_split_step(cur: Seq<char>, rest: Seq<char>)
    requires
        no_newline(cur),
        cur.len() > 0 ==> cur.last() != '\r',
    ensures
        crate::file_parse::split_lines(cur + seq!['\n'] + rest) == seq![cur]
            + crate::file_parse::split_lines(rest),
{
    let s = cur + seq!['\n'] + rest;
    crate::codec::lemma_first_index(s, '\n');
    assert(s[cur.len() as int] == '\n');
    assert forall|j: int| 0 <= j < cur.len() implies s[j] != '\n' by {
        assert(s[j] == cur[j]);
    }
    let i = crate::codec::first_index(s, '\n');
    assert(i == cur.len());
    assert(s.subrange(0, i) =~= cur);
    assert(crate::file_parse::strip_tail_cr(cur) == cur);
    assert(s.subrange(i + 1, s.len() as int) =~= rest);
    assert(seq![crate::file_parse::strip_tail_cr(s.subrange(0, i))]
        + crate::file_parse::split_lines(s.subrange(i + 1, s.len() as int)) =~= seq![cur]
        + crate::file_parse::split_lines(rest));
}

proof fn lemma_leading_spaces_concat(k: nat, rest: Seq<char>)
    requires
        rest.len() > 0,
        rest[0] != ' ',
    ensures
        leading_spaces(crate::file_write::spaces(k) + rest) == k,
{
    let s = crate::file_write::spaces(k) + rest;
    crate::bullet_file_parser::lemma_leading_spaces(s);
    let w = leading_spaces(s);
    assert(s[k as int] == rest[0]);
    assert forall|j: int| 0 <= j < k implies s[j] == ' ' by {
        assert(s[j] == crate::file_write::spaces(k)[j]);
    }
    if w < k {
        assert(s[w] == ' ');
        assert(false);
    }
    if w > k {
        assert(s[k as int] == ' ');
        assert(false);
    }
}

proof fn lemma_locked_after_exists(ns: Seq<NodeV>)
    ensures
        locked_after(ns) <==> exists|i: int| 0 <= i < ns.len() && (#[trigger] ns[i]).type_is is Some,
    decreases ns.len(),
{
    if ns.len() == 0 {
    } else {
        lemma_locked_after_exists(ns.drop_last());
        if locked_after(ns.drop_last()) {
            let i = choose|i: int|
                0 <= i < ns.drop_last().len() && (#[trigger] ns.drop_last()[i]).type_is is Some;
            assert(ns[i].type_is is Some);
        }
        if ns.last().type_is is Some {
            assert(ns[ns.len() - 1].type_is is Some);
        }
        if !locked_after(ns) {
            assert forall|i: int| 0 <= i < ns.len() implies !((#[trigger] ns[i]).type_is is Some) by {
                if i < ns.len() - 1 {
                    assert(ns.drop_last()[i] == ns[i]);
                }
            }
        }
    }
}

/// Replaying one rendered node line from the state its predecessors left
/// behind emits exactly that node.
#[verifier::rlimit(80)]
proof fn lemma_step_replays_node(ns: Seq<NodeV>, i: int)
    requires
        nodes_invariants(ns),
        replay_shape(ns),
        replay_ok(ns),
        ns.len() <= u32::MAX,
        0 <= i < ns.len(),
    ensures
        step(state_after(ns.take(i)), full_line(ns[i])) == StepRes::Emit(
            state_after(ns.take(i + 1)),
            ns[i],
        ),
{
    let n = ns[i];
    let st = state_after(ns.take(i));
    let fl = full_line(n);
    let e = crate::codec::encode_prefix_spec(n);
    assert(replay_shape_at(n));
    if n.type_is is Some {
        crate::codec::lemma_encode_shape(n);
    } else {
        assert(e =~= Seq::<char>::empty());
    }

    // The line re-reads at the node's own level with the prefix and text
    // as its raw payload.
    let payload = e + n.text;
    if n.level == 0 {
        assert(fl == payload);
        crate::bullet_file_parser::lemma_leading_spaces(fl);
        if n.type_is is Some {
            assert(fl[0] == crate::structs::code_char(n.type_is->0));
            assert(fl[0] != ' ' && fl[0] != '*');
            assert(leading_spaces(fl) == 0);
            assert(!is_bullet_line(fl));
        } else {
            assert(fl =~= n.text);
            assert(!is_bullet_line(fl));
        }
        assert(step(st, fl) == create_step(st, 0, fl));
    } else {
        let k = 2 * ((n.level - 1) as nat);
        let rest = seq!['*', ' '] + payload;
        assert(fl =~= crate::file_write::spaces(k) + rest);
        lemma_leading_spaces_concat(k, rest);
        let w = leading_spaces(fl);
        assert(w == k);
        assert(fl[w] == '*' && fl[w + 1] == ' ');
        assert(is_bullet_line(fl));
        assert(w % 2 == 0);
        assert((w / 2 + 1) as nat == n.level as nat);
        assert(fl.subrange(w + 2, fl.len() as int) =~= payload);
        assert(step(st, fl) == create_step(st, n.level as nat, payload));
    }

    // The payload re-decodes to the node's own fields.
    let a = analyze(st.locked, payload);
    if n.type_is is Some {
        if n.parent_idxs.len() >= 2 && n.parent_idxs_diff_type.len() == 0 {
            assert(implicit_shape(ns, i) || pro_con(ns[i].type_is));
            assert(!implicit_shape(ns, i));
        }
        crate::codec::lemma_prefix_round_trip(n);
        if n.parent_idxs.len() <= 1 && n.parent_idxs_diff_type.len() == 0 {
            assert(decode_shape(payload) == PrefixShape::Plain(n.type_is->0));
        } else {
            assert(decode_shape(payload) == PrefixShape::Comparative(
                n.type_is->0,
                crate::codec::u32s_as_nats(n.parent_idxs),
                crate::codec::u32s_as_nats(n.parent_idxs_diff_type),
            ));
            assert(crate::bullet_file_parser::nats_as_u32s(
                crate::codec::u32s_as_nats(n.parent_idxs),
            ) =~= n.parent_idxs);
            assert(crate::bullet_file_parser::nats_as_u32s(
                crate::codec::u32s_as_nats(n.parent_idxs_diff_type),
            ) =~= n.parent_idxs_diff_type);
        }
    } else {
        assert(payload =~= n.text);
        assert(decode_shape(payload) is Untyped);
        // No earlier node is typed, else this untyped node would violate
        // the lock's monotonicity.
        lemma_locked_after_exists(ns.take(i));
        if st.locked {
            let j = choose|j: int|
                0 <= j < ns.take(i).len() && (#[trigger] ns.take(i)[j]).type_is is Some;
            assert(ns[j].type_is is Some);
            assert(ns[i].type_is is Some);
            assert(false);
        }
    }

    // The emitted node is this node, and the state advances as the fold
    // says.
    let popped = pop_ge(st.stack, n.level);
    match a {
        RawOut::RFail(_) => {
            assert(false);
        },
        RawOut::REmit { type_is, same, diff, text, engages } => {
            assert(type_is == n.type_is);
            assert(text == n.text);
            assert(diff =~= n.parent_idxs_diff_type);
            assert(engages == (n.type_is is Some));
            let parents = if same.len() > 0 {
                same
            } else if popped.len() > 0 {
                seq![popped.last().idx]
            } else {
                Seq::<u32>::empty()
            };
            if same.len() > 0 {
                assert(same == n.parent_idxs);
            } else {
                if n.type_is is Some && !(n.parent_idxs.len() <= 1
                    && n.parent_idxs_diff_type.len() == 0) {
                    assert(n.parent_idxs.len() > 0);
                    assert(false);
                }
                assert(n.parent_idxs_diff_type.len() == 0 && n.parent_idxs.len() <= 1) by {
                    if !(n.type_is is Some) {
                        assert(implicit_shape(ns, i) || pro_con(ns[i].type_is));
                        assert(implicit_shape(ns, i));
                    }
                }
                assert(n.parent_idxs == implicit_of(stack_after(ns.take(i)), n.level));
                assert(parents == n.parent_idxs);
            }
            assert(st.cnt == i as u32);
            assert(st.cnt < u32::MAX);
            assert(n.file_order == i as u32);
            let node = NodeV {
                text,
                type_is,
                file_order: st.cnt,
                level: n.level,
                parent_idxs: parents,
                parent_idxs_diff_type: diff,
            };
            assert(node == n);
            assert(ns.take(i + 1).drop_last() =~= ns.take(i));
            assert(ns.take(i + 1).last() == n);
            assert(stack_after(ns.take(i + 1)) == popped.push(
                PotentialParent { level: n.level, idx: n.file_order },
            ));
            assert(locked_after(ns.take(i + 1)) == (st.locked || engages));
            assert(ns.take(i).push(n) =~= ns.take(i + 1));
            assert((i + 1) as u32 == ns.take(i + 1).len() as u32);
        },
    }
}

/// Replaying the rendered lines of the nodes after the first `i`, from the
/// state those first `i` left behind, succeeds and rebuilds the whole
/// sequence.
proof fn lemma_replay(ns: Seq<NodeV>, i: int)
    requires
        nodes_invariants(ns),
        replay_shape(ns),
        replay_ok(ns),
        ns.len() <= u32::MAX,
        0 <= i <= ns.len(),
    ensures
        run(state_after(ns.take(i)), lines_of(ns.skip(i))) == Ok::<ParserSt, MdtError>(
            state_after(ns),
        ),
    decreases ns.len() - i,
{
    if i == ns.len() {
        assert(ns.skip(i) =~= Seq::<NodeV>::empty());
        assert(ns.take(i) =~= ns);
    } else {
        let n = ns[i];
        let st = state_after(ns.take(i));
        let st2 = state_after(ns.take(i + 1));
        lemma_step_replays_node(ns, i);
        lemma_replay(ns, i + 1);
        let rest = lines_of(ns.skip(i + 1));
        assert(ns.skip(i)[0] == n);
        assert(ns.skip(i).drop_first() =~= ns.skip(i + 1));
        assert(lines_of(ns.skip(i)) == node_lines(n) + rest);
        let all = node_lines(n) + rest;
        if n.level == 0 {
            assert(all[0] =~= Seq::<char>::empty());
            assert(step(st, all[0]) == StepRes::Keep(st));
            let all2 = seq![full_line(n)] + rest;
            assert(all.drop_first() =~= all2);
            assert(all2[0] == full_line(n));
            assert(all2.drop_first() =~= rest);
            assert(run(st, all2) == run(st2, rest));
        } else {
            assert(all[0] == full_line(n));
            assert(all.drop_first() =~= rest);
            assert(run(st, all) == run(st2, rest));
        }
    }
}

/// File round trip: rendering a successful parse and parsing the rendering
/// gives back exactly the same collection.  Two kinds of input are left
/// out, on which the equality genuinely fails: a comparative prefix that
/// names a single parent other than the one the ancestor stack implies
/// (the writer prints it implicitly, so the re-read re-infers the stack's
/// parent), and a text or title whose final character is a carriage
/// return (the re-read folds it into the line ending).
pub proof fn lemma_file_round_trip(content: Seq<char>, stem: Seq<char>)
    requires
        parse_spec(content) is Ok,
        replay_ok(parse_spec(content)->Ok_0.nodes),
        crlf_clean(parse_spec(content)->Ok_0.nodes),
        parse_spec(content)->Ok_0.title.len() > 0 ==> parse_spec(content)->Ok_0.title.last()
            != '\r',
    ensures
        parse_spec(crate::file_write::render_spec(parse_spec(content)->Ok_0, stem)) == parse_spec(
            content,
        ),
{
    let v = parse_spec(content)->Ok_0;
    let ls = crate::file_parse::split_lines(content);
    lemma_parse_invariants(content);
    lemma_split_lines_clean(content);
    assert(lines_clean(ls.drop_first())) by {
        assert(forall|i: int|
            0 <= i < ls.len() - 1 ==> (#[trigger] ls.drop_first()[i]) == ls[i + 1]);
    }
    assert(st_wf(init_state()));
    lemma_run_wf(init_state(), ls.drop_first());
    lemma_run_replay_shape(init_state(), ls.drop_first());
    let stf = run(init_state(), ls.drop_first())->Ok_0;
    assert(v.nodes == stf.hist);
    assert(v.nodes.len() <= u32::MAX);
    assert(replay_shape(v.nodes));
    assert(no_newline(v.title));

    // The title is non-empty: it contains the nineteen-character marker.
    reveal_strlit("(md-decision-trees)");
    assert(crate::file_parse::contains_seq(v.title, crate::file_parse::header_marker()));
    assert(v.title.len() > 0) by {
        let k = choose|k: int|
            0 <= k && k + crate::file_parse::header_marker().len() <= v.title.len() && (
            #[trigger] v.title.subrange(k, k + crate::file_parse::header_marker().len()))
                == crate::file_parse::header_marker();
        assert(k + 19 <= v.title.len());
    }

    // The rendering splits back into the title and the node lines.
    let rendered = crate::file_write::render_spec(v, stem);
    assert(crate::file_write::render_title(v.title, stem) == v.title);
    lemma_split_render_tail(v.title, v.nodes);
    let ls2 = crate::file_parse::split_lines(rendered);
    assert(ls2 == seq![v.title] + lines_of(v.nodes));
    assert(ls2[0] == v.title);
    assert(ls2.drop_first() =~= lines_of(v.nodes));

    // Replaying the node lines rebuilds the nodes.
    assert(init_state() == state_after(Seq::<NodeV>::empty()));
    assert(v.nodes.take(0) =~= Seq::<NodeV>::empty());
    assert(v.nodes.skip(0) =~= v.nodes);
    lemma_replay(v.nodes, 0);
    assert(run(init_state(), lines_of(v.nodes)) == Ok::<ParserSt, MdtError>(
        state_after(v.nodes),
    ));
    assert(parse_spec(rendered) == Ok::<crate::structs::NodesV, MdtError>(
        crate::structs::NodesV { title: v.title, nodes: v.nodes },
    ));
    assert(v == (crate::structs::NodesV { title: v.title, nodes: v.nodes }));
}

/// A running parser's state is the fold of its own history, and every node
/// that is not Pro/Con typed carries the parent the ancestor stack implied
/// at its position.
pub open spec fn coherent(st: ParserSt) -> bool {
    &&& st.hist.len() <= u32::MAX
    &&& st == state_after(st.hist)
    &&& forall|i: int|
        0 <= i < st.hist.len() && !pro_con((#[trigger] st.hist[i]).type_is)
            ==> st.hist[i].parent_idxs == implicit_of(
            stack_after(st.hist.take(i)),
            st.hist[i].level,
        )
}

proof fn lemma_step_coherent(st: ParserSt, line: Seq<char>)
    requires
        coherent(st),
    ensures
        step(st, line) matches StepRes::Keep(st2) ==> st2 == st,
        step(st, line) matches StepRes::Emit(st2, nv) ==> coherent(st2),
{
    let res = step(st, line);
    if !(res is Emit) {
        return ;
    }
    let level: nat = if is_bullet_line(line) {
        (leading_spaces(line) / 2 + 1) as nat
    } else {
        0
    };
    let raw: Seq<char> = if is_bullet_line(line) {
        line.subrange(leading_spaces(line) + 2, line.len() as int)
    } else {
        line
    };
    assert(res == create_step(st, level, raw));
    lemma_comparative_shape(raw);
    match analyze(st.locked, raw) {
        RawOut::RFail(_) => {
            assert(false);
        },
        RawOut::REmit { type_is, same, diff, text, engages } => {
            assert(engages == (type_is is Some));
            assert(same.len() > 0 ==> pro_con(type_is));
            match res {
                StepRes::Emit(st2, nv) => {
                    let hist2 = st.hist.push(nv);
                    assert(hist2.drop_last() =~= st.hist);
                    assert(hist2.last() == nv);
                    assert(st.cnt == st.hist.len());
                    assert(st.cnt < u32::MAX);
                    assert(hist2.len() <= u32::MAX);
                    assert(st2.cnt == hist2.len() as u32);
                    assert(stack_after(hist2) == st2.stack);
                    assert(locked_after(hist2) == st2.locked);
                    assert(st2 == state_after(st2.hist));
                    assert forall|i: int|
                        0 <= i < hist2.len() && !pro_con(
                            (#[trigger] hist2[i]).type_is,
                        ) implies hist2[i].parent_idxs == implicit_of(
                        stack_after(hist2.take(i)),
                        hist2[i].level,
                    ) by {
                        assert(hist2.take(i) =~= st.hist.take(i));
                        if i < st.hist.len() {
                            assert(hist2[i] == st.hist[i]);
                        } else {
                            assert(hist2[i] == nv);
                            assert(st.hist.take(i) =~= st.hist);
                            assert(same.len() == 0);
                        }
                    }
                },
                _ => {
                },
            }
        },
    }
}

proof fn lemma_run_coherent(st: ParserSt, lines: Seq<Seq<char>>)
    requires
        coherent(st),
    ensures
        run(st, lines) matches Ok(st2) ==> coherent(st2),
    decreases lines.len(),
{
    if lines.len() == 0 {
    } else {
        lemma_step_coherent(st, lines[0]);
        match step(st, lines[0]) {
            StepRes::Fail(_) => {
            },
            StepRes::Keep(st2) => {
                lemma_run_coherent(st2, lines.drop_first());
            },
            StepRes::Emit(st2, _) => {
                lemma_run_coherent(st2, lines.drop_first());
            },
        }
    }
}

/// In every successful parse, a node that is not Pro/Con typed carries
/// exactly the parent the ancestor stack implied at its position.
pub proof fn lemma_parse_implicit_parents(content: Seq<char>)
    ensures
        parse_spec(content) matches Ok(v) ==> forall|i: int|
            0 <= i < v.nodes.len() && !pro_con((#[trigger] v.nodes[i]).type_is)
                ==> v.nodes[i].parent_idxs == implicit_of(
                stack_after(v.nodes.take(i)),
                v.nodes[i].level,
            ),
{
    if parse_spec(content) is Ok {
        let ls = crate::file_parse::split_lines(content);
        assert(coherent(init_state())) by {
            assert(init_state().hist.take(0) =~= Seq::<NodeV>::empty());
        }
        lemma_run_coherent(init_state(), ls.drop_first());
    }
}

/// File round trip without side conditions on the parents, for every file
/// none of whose nodes is Pro/Con typed (pure-bullet and Decision/Option/
/// Note outlines): such a file has no comparative prefixes, so every
/// parent is the ancestor stack's own.
pub proof fn lemma_file_round_trip_no_pro_con(content: Seq<char>, stem: Seq<char>)
    requires
        parse_spec(content) is Ok,
        forall|i: int|
            0 <= i < parse_spec(content)->Ok_0.nodes.len() ==> !pro_con(
                (#[trigger] parse_spec(content)->Ok_0.nodes[i]).type_is,
            ),
        crlf_clean(parse_spec(content)->Ok_0.nodes),
        parse_spec(content)->Ok_0.title.len() > 0 ==> parse_spec(content)->Ok_0.title.last()
            != '\r',
    ensures
        parse_spec(crate::file_write::render_spec(parse_spec(content)->Ok_0, stem)) == parse_spec(
            content,
        ),
{
    let v = parse_spec(content)->Ok_0;
    lemma_parse_implicit_parents(content);
    assert(replay_ok(v.nodes));
    lemma_file_round_trip(content, stem);
}

/// Typed lock, failure side: once the lock is engaged, a well-indented
/// non-empty line with no recognizable prefix fails the parse with
/// `TypedLockViolation`.
pub proof fn lemma_typed_lock_violation(st: ParserSt, line: Seq<char>)
    requires
        st.locked,
        st.cnt < u32::MAX,
        line.len() > 0,
        is_bullet_line(line) ==> leading_spaces(line) % 2 == 0 && leading_spaces(line) / 2 + 1
            <= u32::MAX,
        decode_shape(
            if is_bullet_line(line) {
                line.subrange(leading_spaces(line) + 2, line.len() as int)
            } else {
                line
            },
        ) is Untyped,
    ensures
        step(st, line) == StepRes::Fail(MdtError::TypedLockViolation),
{
    crate::bullet_file_parser::lemma_leading_spaces(line);
    if is_bullet_line(line) {
        let w = leading_spaces(line);
        let raw = line.subrange(w + 2, line.len() as int);
        assert(analyze(st.locked, raw) == RawOut::RFail(MdtError::TypedLockViolation));
        assert(step(st, line) == create_step(st, (w / 2 + 1) as nat, raw));
    } else {
        assert(analyze(st.locked, line) == RawOut::RFail(MdtError::TypedLockViolation));
    }
}

} // verus!
