//! The bullet parser: a line-oriented state machine that turns each bullet
//! line into a node, inferring implicit parents from a DFS ancestor stack.

use vstd::prelude::*;

use crate::codec::decode_rest;
use crate::codec::decode_shape;
use crate::codec::ids_fit;
use crate::codec::u32s_as_nats;
use crate::codec::PrefixOut;
use crate::codec::PrefixShape;
use crate::errors::MdtError;
use crate::structs::Node;
use crate::structs::NodeType;
use crate::structs::NodeV;

verus! {

/// A sequence of parent values brought back into the index width; meaningful
/// when every value fits.
pub open spec fn nats_as_u32s(s: Seq<nat>) -> Seq<u32> {
    s.map_values(|x: nat| x as u32)
}

/// A node already read that may become a parent of a later node.
#[derive(Copy, Clone)]
pub struct PotentialParent {
    /// The candidate's indentation level.
    pub level: u32,
    /// The candidate's file order.
    pub idx: u32,
}

/// The spec-level state of a parse session: the next file order, the
/// ancestor stack, the typed-file lock, and the nodes emitted so far.
pub ghost struct ParserSt {
    pub cnt: u32,
    pub stack: Seq<PotentialParent>,
    pub locked: bool,
    pub hist: Seq<NodeV>,
}

/// The ancestor stack after dropping every tail entry at or below the new
/// node's depth: those can parent neither the new node nor any later one.
pub open spec fn pop_ge(q: Seq<PotentialParent>, level: u32) -> Seq<PotentialParent>
    decreases q.len(),
{
    if q.len() == 0 {
        q
    } else if q.last().level >= level {
        pop_ge(q.drop_last(), level)
    } else {
        q
    }
}

/// How one line's raw text (indentation already stripped) is read.
pub ghost enum RawOut {
    /// The line is rejected.
    RFail(MdtError),
    /// The line yields a node with these decoded fields; `engages` says
    /// whether a type prefix was present, which engages the typed-file lock.
    REmit {
        type_is: Option<NodeType>,
        same: Seq<u32>,
        diff: Seq<u32>,
        text: Seq<char>,
        engages: bool,
    },
}

/// Read one line's raw text: decode the prefix, enforce the typed-file
/// lock, and surface grammar and width failures.
pub open spec fn analyze(locked: bool, raw: Seq<char>) -> RawOut {
    match decode_shape(raw) {
        PrefixShape::Untyped => if locked {
            RawOut::RFail(MdtError::TypedLockViolation)
        } else {
            RawOut::REmit {
                type_is: None,
                same: Seq::<u32>::empty(),
                diff: Seq::<u32>::empty(),
                text: raw,
                engages: false,
            }
        },
        PrefixShape::Plain(k) => RawOut::REmit {
            type_is: Some(k),
            same: Seq::<u32>::empty(),
            diff: Seq::<u32>::empty(),
            text: decode_rest(raw),
            engages: true,
        },
        PrefixShape::Comparative(k, same, diff) => if !(ids_fit(same) && ids_fit(diff)) {
            RawOut::RFail(MdtError::InternalOverflow)
        } else {
            RawOut::REmit {
                type_is: Some(k),
                same: nats_as_u32s(same),
                diff: nats_as_u32s(diff),
                text: decode_rest(raw),
                engages: true,
            }
        },
        PrefixShape::Malformed => RawOut::RFail(MdtError::MalformedComparative),
    }
}

/// What one parser step does.
pub ghost enum StepRes {
    /// The line is rejected and the whole parse fails.
    Fail(MdtError),
    /// The line yields no node; the state is unchanged.
    Keep(ParserSt),
    /// The line yields this node and this new state.
    Emit(ParserSt, NodeV),
}

/// Build a node from a line whose level is already known: decode the raw
/// text, then assign parents from the ancestor stack — explicit comparative
/// parents win; otherwise the nearest strictly shallower ancestor, if any.
pub open spec fn create_step(st: ParserSt, level: nat, raw: Seq<char>) -> StepRes {
    if level > u32::MAX || st.cnt == u32::MAX {
        StepRes::Fail(MdtError::InternalOverflow)
    } else {
        match analyze(st.locked, raw) {
            RawOut::RFail(e) => StepRes::Fail(e),
            RawOut::REmit { type_is, same, diff, text, engages } => {
                {
                    let popped = pop_ge(st.stack, level as u32);
                    let parents = if same.len() > 0 {
                        same
                    } else if popped.len() > 0 {
                        seq![popped.last().idx]
                    } else {
                        Seq::<u32>::empty()
                    };
                    let node = NodeV {
                        text,
                        type_is,
                        file_order: st.cnt,
                        level: level as u32,
                        parent_idxs: parents,
                        parent_idxs_diff_type: diff,
                    };
                    let st2 = ParserSt {
                        cnt: (st.cnt + 1) as u32,
                        stack: popped.push(
                            PotentialParent { level: level as u32, idx: st.cnt },
                        ),
                        locked: st.locked || engages,
                        hist: st.hist.push(node),
                    };
                    StepRes::Emit(st2, node)
                }
            },
        }
    }
}

/// The count of leading space characters of a line.
pub open spec fn leading_spaces(line: Seq<char>) -> int
    decreases line.len(),
{
    if line.len() == 0 || line[0] != ' ' {
        0
    } else {
        1 + leading_spaces(line.drop_first())
    }
}

/// What [`leading_spaces`] returns: the length of the maximal leading run
/// of spaces.
pub proof fn lemma_leading_spaces(line: Seq<char>)
    ensures
        ({
            let w = leading_spaces(line);
            &&& 0 <= w <= line.len()
            &&& forall|j: int| 0 <= j < w ==> line[j] == ' '
            &&& w < line.len() ==> line[w] != ' '
        }),
    decreases line.len(),
{
    if line.len() == 0 || line[0] != ' ' {
    } else {
        lemma_leading_spaces(line.drop_first());
        let t = line.drop_first();
        let wt = leading_spaces(t);
        assert forall|j: int| 0 <= j < wt + 1 implies line[j] == ' ' by {
            if j >= 1 {
                assert(t[j - 1] == line[j]);
            }
        }
        if wt + 1 < line.len() {
            assert(line[wt + 1] == t[wt]);
        }
    }
}

/// Whether a line has bullet form: a run of leading spaces followed by
/// `"* "`.
pub open spec fn is_bullet_line(line: Seq<char>) -> bool {
    let w = leading_spaces(line);
    w + 1 < line.len() && line[w] == '*' && line[w + 1] == ' '
}

/// One step of the parser on one line, per the per-line algorithm: an empty
/// line yields nothing; a bullet line must have an even indent and is read
/// at depth `indent / 2 + 1`; any other line is a top-level node at depth
/// `0` whose raw text is the whole line.
pub open spec fn step(st: ParserSt, line: Seq<char>) -> StepRes {
    if line.len() == 0 {
        StepRes::Keep(st)
    } else if is_bullet_line(line) {
        let w = leading_spaces(line);
        if w % 2 != 0 {
            StepRes::Fail(MdtError::Indentation)
        } else {
            create_step(st, (w / 2 + 1) as nat, line.subrange(w + 2, line.len() as int))
        }
    } else {
        create_step(st, 0, line)
    }
}

/// The initial state of a parse session.
pub open spec fn init_state() -> ParserSt {
    ParserSt { cnt: 0, stack: Seq::empty(), locked: false, hist: Seq::empty() }
}

/// Run the parser over a sequence of lines, stopping at the first failure.
pub open spec fn run(st: ParserSt, lines: Seq<Seq<char>>) -> Result<ParserSt, MdtError>
    decreases lines.len(),
{
    if lines.len() == 0 {
        Ok(st)
    } else {
        match step(st, lines[0]) {
            StepRes::Fail(e) => Err(e),
            StepRes::Keep(st2) => run(st2, lines.drop_first()),
            StepRes::Emit(st2, _) => run(st2, lines.drop_first()),
        }
    }
}

/// Parses bullet point files, one line at a time.
pub struct BulletFileParser {
    file_order_cnt: u32,
    parent_q: Vec<PotentialParent>,
    force_node_type: bool,
    hist: Ghost<Seq<NodeV>>,
}

impl View for BulletFileParser {
    type V = ParserSt;

    closed spec fn view(&self) -> ParserSt {
        ParserSt {
            cnt: self.file_order_cnt,
            stack: self.parent_q@,
            locked: self.force_node_type,
            hist: self.hist@,
        }
    }
}

impl BulletFileParser {
    /// A fresh parse session.
    pub fn new() -> (r: BulletFileParser)
        ensures
            r@ == init_state(),
    {
        let r = BulletFileParser {
            file_order_cnt: 0,
            parent_q: Vec::new(),
            force_node_type: false,
            hist: Ghost(Seq::empty()),
        };
        proof {
            assert(r.parent_q@ =~= Seq::<PotentialParent>::empty());
        }
        r
    }

    /// Push the node being built as a candidate parent for later nodes.
    fn add_curr_as_pot_parent(&mut self, level: u32)
        ensures
            final (self)@ == (ParserSt {
                stack: old(self)@.stack.push(
                    PotentialParent { level, idx: old(self)@.cnt },
                ),
                ..old(self)@
            }),
    {
        let idx = self.file_order_cnt;
        self.parent_q.push(PotentialParent { level, idx });
    }

    /// Split an optional type prefix off a line's text.  Returns the kind
    /// and the remaining text when a prefix decodes; engages the typed-file
    /// lock on every decode, and reports a violation when the lock is
    /// engaged and the text carries no prefix.
    pub fn split_node_type_from_string(&mut self, text: &str) -> (r: Result<
        Option<(NodeType, String)>,
        MdtError,
    >)
        ensures
            ({
                let shape = decode_shape(text@);
                match r {
                    Ok(None) => shape is Untyped && !old(self)@.locked && *final (self) == *old(self),
                    Ok(Some((k, rest))) => rest@ == decode_rest(text@) && (shape
                        == PrefixShape::Plain(k) || (shape matches PrefixShape::Comparative(
                        ck,
                        same,
                        diff,
                    ) && ck == k && ids_fit(same) && ids_fit(diff))) && final (self)@ == (ParserSt {
                        locked: true,
                        ..old(self)@
                    }),
                    Err(e) => *final (self) == *old(self) && ((shape is Untyped && old(self)@.locked && e == MdtError::TypedLockViolation) || (shape is Malformed
                        && e == MdtError::MalformedComparative) || (
                    shape matches PrefixShape::Comparative(_, same, diff) && !(ids_fit(same)
                        && ids_fit(diff)) && e == MdtError::InternalOverflow)),
                }
            }),
    {
        match crate::codec::decode_prefix(text) {
            PrefixOut::Untyped => {
                if self.force_node_type {
                    Err(MdtError::TypedLockViolation)
                } else {
                    Ok(None)
                }
            },
            PrefixOut::Plain(k, rest) => {
                self.force_node_type = true;
                Ok(Some((k, rest)))
            },
            PrefixOut::Comp(k, _, _, rest) => {
                self.force_node_type = true;
                Ok(Some((k, rest)))
            },
            PrefixOut::Malformed => Err(MdtError::MalformedComparative),
            PrefixOut::Overflow => Err(MdtError::InternalOverflow),
        }
    }

    /// Parse comparative parent indexes from a node's text: the values of
    /// both id lists, when the text opens with a well-formed comparative
    /// prefix whose values all fit.
    pub fn parse_comparative_parent_idxs(&self, text: &str) -> (r: Option<(Vec<u32>, Vec<u32>)>)
        ensures
            ({
                let shape = decode_shape(text@);
                match r {
                    Some((sv, dv)) => shape matches PrefixShape::Comparative(k, same, diff)
                        && u32s_as_nats(sv@) == same && u32s_as_nats(dv@) == diff,
                    None => !(shape matches PrefixShape::Comparative(k, same, diff)
                        && ids_fit(same) && ids_fit(diff)),
                }
            }),
    {
        match crate::codec::decode_prefix(text) {
            PrefixOut::Comp(_, sv, dv, _) => Some((sv, dv)),
            _ => None,
        }
    }

    /// Create a node from a line's text at a known level: decode the
    /// prefix, then tie the node to its parent via the ancestor stack.
    fn create_node(&mut self, text: &str, indent_level: u32) -> (r: Result<Node, MdtError>)
        ensures
            ({
                let res = create_step(old(self)@, indent_level as nat, text@);
                match r {
                    Ok(node) => res matches StepRes::Emit(st2, nv) && final (self)@ == st2 && node@ == nv,
                    Err(e) => res == StepRes::Fail(e) && *final (self) == *old(self),
                }
            }),
    {
        let mut new_text: String;
        let mut new_type: Option<NodeType> = None;
        let mut new_parent_idxs: Vec<u32> = Vec::new();
        let mut new_diff_idxs: Vec<u32> = Vec::new();
        proof {
            assert(u32s_as_nats(new_parent_idxs@) =~= Seq::<nat>::empty());
        }
        if self.file_order_cnt == u32::MAX {
            return Err(MdtError::InternalOverflow);
        }
        match self.split_node_type_from_string(text) {
            Err(e) => {
                return Err(e);
            },
            Ok(None) => {
                new_text = String::from_str(text);
            },
            Ok(Some((node_type, stripped))) => {
                new_type = Some(node_type);
                new_text = stripped;
                if node_type == NodeType::Pro || node_type == NodeType::Con {
                    if let Some((same_type_idxs, diff_type_idxs)) =
                        self.parse_comparative_parent_idxs(text) {
                        new_parent_idxs = same_type_idxs;
                        new_diff_idxs = diff_type_idxs;
                    }
                }
            },
        }
        proof {
            let a = analyze(old(self)@.locked, text@);
            assert(a matches RawOut::REmit { type_is, same, diff, text: t, engages } && type_is
                == new_type && same =~= new_parent_idxs@ && diff =~= new_diff_idxs@ && t
                == new_text@);
        }
        let ghost kept_cnt = self.file_order_cnt;
        let ghost kept_lock = self.force_node_type;
        let ghost kept_hist = self.hist@;
        let ghost popped = pop_ge(old(self)@.stack, indent_level);
        // The file lists nodes in DFS order, so ancestors at or below this
        // node's level can be discarded: they cannot parent anything later.
        loop
            invariant_except_break
                self.file_order_cnt == kept_cnt,
                self.force_node_type == kept_lock,
                self.hist@ == kept_hist,
                pop_ge(self.parent_q@, indent_level) == popped,
            ensures
                self.file_order_cnt == kept_cnt,
                self.force_node_type == kept_lock,
                self.hist@ == kept_hist,
                self.parent_q@ == popped,
            decreases self.parent_q@.len(),
        {
            if self.parent_q.len() == 0 {
                break ;
            }
            let pot_parent = self.parent_q[self.parent_q.len() - 1];
            if pot_parent.level < indent_level {
                break ;
            }
            self.parent_q.pop();
        }
        if self.parent_q.len() > 0 {
            let pot_parent = self.parent_q[self.parent_q.len() - 1];
            if new_parent_idxs.len() == 0 {
                new_parent_idxs.push(pot_parent.idx);
                proof {
                    assert(new_parent_idxs@ =~= seq![popped.last().idx]);
                }
            }
        }
        let new_node = Node {
            text: new_text,
            type_is: new_type,
            file_order: self.file_order_cnt,
            level: indent_level,
            parent_idxs: new_parent_idxs,
            parent_idxs_diff_type: new_diff_idxs,
        };
        self.add_curr_as_pot_parent(indent_level);
        self.file_order_cnt = self.file_order_cnt + 1;
        proof {
            self.hist@ = self.hist@.push(new_node@);
        }
        Ok(new_node)
    }

    /// Parse one line; a non-empty line yields a node, an empty one none.
    pub fn handle_line(&mut self, line: &String) -> (r: Result<Option<Node>, MdtError>)
        ensures
            ({
                let res = step(old(self)@, line@);
                match r {
                    Ok(None) => res matches StepRes::Keep(st2) && final (self)@ == st2,
                    Ok(Some(node)) => res matches StepRes::Emit(st2, nv) && final (self)@ == st2 && node@
                        == nv,
                    Err(e) => res == StepRes::Fail(e) && *final (self) == *old(self),
                }
            }),
    {
        let s = line.as_str();
        if s.is_empty() {
            return Ok(None);
        }
        let n = s.unicode_len();
        proof {
            lemma_leading_spaces(line@);
        }
        let mut w: usize = 0;
        while w < n && s.get_char(w) == ' '
            invariant
                w <= n,
                n == line@.len(),
                s@ == line@,
                forall|j: int| 0 <= j < w ==> line@[j] == ' ',
            decreases n - w,
        {
            w += 1;
        }
        proof {
            lemma_leading_spaces(line@);
            assert(w == leading_spaces(line@));
        }
        let bullet = w < n && s.get_char(w) == '*' && w + 1 < n && s.get_char(w + 1) == ' ';
        proof {
            assert(bullet == is_bullet_line(line@));
        }
        if bullet {
            let spaces_per_level = crate::file_parse::NUM_SPACES_PER_LEVEL as usize;
            if w % spaces_per_level != 0 {
                return Err(MdtError::Indentation);
            }
            let half = w / spaces_per_level;
            if half > (u32::MAX - 1) as usize {
                return Err(MdtError::InternalOverflow);
            }
            let indent_level: u32 = half as u32 + 1;
            let text = s.substring_char(w + 2, n);
            proof {
                assert(text@ == line@.subrange(w + 2, line@.len() as int));
                assert(indent_level as nat == (leading_spaces(line@) / 2 + 1) as nat);
            }
            match self.create_node(text, indent_level) {
                Ok(node) => Ok(Some(node)),
                Err(e) => Err(e),
            }
        } else {
            match self.create_node(s, 0) {
                Ok(node) => Ok(Some(node)),
                Err(e) => Err(e),
            }
        }
    }
}

} // verus!
