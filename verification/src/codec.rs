//! The type-prefix codec: the textual grammar
//!
//! ```text
//! prefix   := kind [ "," idlist [ "-" kind "," idlist ] ] ": "
//! kind     := "D" | "O" | "P" | "C" | "N"
//! idlist   := uint ( "," uint )*
//! ```
//!
//! and the spec-level decimal, id-list and prefix functions that both the
//! parser and the writer are specified against.

use vstd::prelude::*;

use crate::structs::code_char;
use crate::structs::opposite;
use crate::structs::NodeType;

verus! {

/// Whether `c` is a decimal digit.
pub open spec fn is_digit(c: char) -> bool {
    48 <= (c as int) && (c as int) <= 57
}

/// The value of a decimal digit character.
pub open spec fn digit_val(c: char) -> nat {
    ((c as int) - 48) as nat
}

/// The character for a single decimal digit.
pub open spec fn digit_char(d: nat) -> char {
    if d == 0 {
        '0'
    } else if d == 1 {
        '1'
    } else if d == 2 {
        '2'
    } else if d == 3 {
        '3'
    } else if d == 4 {
        '4'
    } else if d == 5 {
        '5'
    } else if d == 6 {
        '6'
    } else if d == 7 {
        '7'
    } else if d == 8 {
        '8'
    } else {
        '9'
    }
}

/// The canonical decimal rendering of `n`, most significant digit first.
pub open spec fn dec_digits(n: nat) -> Seq<char>
    decreases n,
{
    if n < 10 {
        seq![digit_char(n)]
    } else {
        dec_digits(n / 10).push(digit_char(n % 10))
    }
}

/// Whether `s` is a non-empty run of decimal digits.
pub open spec fn is_uint_str(s: Seq<char>) -> bool {
    s.len() > 0 && forall|i: int| 0 <= i < s.len() ==> is_digit(#[trigger] s[i])
}

/// The value of a digit string, read in base ten; leading zeros are allowed.
pub open spec fn uint_val(s: Seq<char>) -> nat
    decreases s.len(),
{
    if s.len() == 0 {
        0
    } else {
        uint_val(s.drop_last()) * 10 + digit_val(s.last())
    }
}

proof fn lemma_digit_char_val(d: nat)
    requires
        d < 10,
    ensures
        is_digit(digit_char(d)),
        digit_val(digit_char(d)) == d,
        digit_char(d) != ',',
        digit_char(d) != '-',
        digit_char(d) != ':',
{
}

/// Every character of a canonical decimal rendering is a digit, and in
/// particular none is a comma, a dash or a colon.
pub proof fn lemma_dec_digits_shape(n: nat)
    ensures
        dec_digits(n).len() > 0,
        is_uint_str(dec_digits(n)),
    decreases n,
{
    if n < 10 {
        lemma_digit_char_val(n);
    } else {
        lemma_dec_digits_shape(n / 10);
        lemma_digit_char_val(n % 10);
        assert(forall|i: int|
            0 <= i < dec_digits(n).len() ==> is_digit(#[trigger] dec_digits(n)[i])) by {
            assert forall|i: int| 0 <= i < dec_digits(n).len() implies is_digit(
                #[trigger] dec_digits(n)[i],
            ) by {
                if i < dec_digits(n / 10).len() {
                    assert(dec_digits(n)[i] == dec_digits(n / 10)[i]);
                }
            }
        }
    }
}

/// Reading back the canonical decimal rendering of `n` gives `n` itself.
pub proof fn lemma_dec_digits_val(n: nat)
    ensures
        uint_val(dec_digits(n)) == n,
    decreases n,
{
    if n < 10 {
        lemma_digit_char_val(n);
        assert(dec_digits(n) =~= seq![digit_char(n)]);
        assert(dec_digits(n).drop_last() =~= Seq::<char>::empty());
        assert(dec_digits(n).last() == digit_char(n));
        assert(uint_val(dec_digits(n)) == uint_val(Seq::<char>::empty()) * 10 + digit_val(
            digit_char(n),
        ));
    } else {
        lemma_dec_digits_val(n / 10);
        lemma_digit_char_val(n % 10);
        assert(dec_digits(n) == dec_digits(n / 10).push(digit_char(n % 10)));
        assert(dec_digits(n).drop_last() =~= dec_digits(n / 10));
        assert(dec_digits(n).last() == digit_char(n % 10));
        assert(uint_val(dec_digits(n)) == uint_val(dec_digits(n / 10)) * 10 + digit_val(
            dec_digits(n).last(),
        ));
        assert(n / 10 * 10 + n % 10 == n) by (nonlinear_arith);
    }
}

/// Index of the first occurrence of `c` in `s`, or `-1` when absent.
pub open spec fn first_index(s: Seq<char>, c: char) -> int
    decreases s.len(),
{
    if s.len() == 0 {
        -1
    } else if s[0] == c {
        0
    } else {
        let r = first_index(s.drop_first(), c);
        if r < 0 {
            -1
        } else {
            r + 1
        }
    }
}

/// What [`first_index`] returns: the least index holding `c`, or `-1` when
/// no index does.
pub proof fn lemma_first_index(s: Seq<char>, c: char)
    ensures
        ({
            let r = first_index(s, c);
            &&& -1 <= r < s.len()
            &&& r >= 0 ==> s[r] == c && (forall|j: int| 0 <= j < r ==> s[j] != c)
            &&& r == -1 ==> forall|j: int| 0 <= j < s.len() ==> s[j] != c
        }),
    decreases s.len(),
{
    if s.len() == 0 {
    } else if s[0] == c {
    } else {
        lemma_first_index(s.drop_first(), c);
        assert(forall|j: int| 1 <= j < s.len() ==> s[j] == s.drop_first()[j - 1]);
    }
}

/// Index of the first `": "` in `s`, or `-1` when absent.
pub open spec fn find_colon_space(s: Seq<char>) -> int
    decreases s.len(),
{
    if s.len() < 2 {
        -1
    } else if s[0] == ':' && s[1] == ' ' {
        0
    } else {
        let r = find_colon_space(s.drop_first());
        if r < 0 {
            -1
        } else {
            r + 1
        }
    }
}

/// What [`find_colon_space`] returns: the least index where `": "` starts,
/// or `-1` when the two-character delimiter does not occur.
pub proof fn lemma_find_colon_space(s: Seq<char>)
    ensures
        ({
            let r = find_colon_space(s);
            &&& -1 <= r && r + 1 < s.len() || r == -1
            &&& r >= 0 ==> s[r] == ':' && s[r + 1] == ' ' && (forall|j: int|
                0 <= j < r ==> !(#[trigger] s[j] == ':' && s[j + 1] == ' '))
            &&& r == -1 ==> forall|j: int|
                0 <= j && j + 1 < s.len() ==> !(#[trigger] s[j] == ':' && s[j + 1] == ' ')
        }),
    decreases s.len(),
{
    if s.len() < 2 {
    } else if s[0] == ':' && s[1] == ' ' {
    } else {
        lemma_find_colon_space(s.drop_first());
        let t = s.drop_first();
        let rt = find_colon_space(t);
        if rt >= 0 {
            let r = rt + 1;
            assert(s[r] == t[rt] && s[r + 1] == t[rt + 1]);
            assert forall|j: int| 0 <= j < r implies !(#[trigger] s[j] == ':' && s[j + 1]
                == ' ') by {
                if j >= 1 {
                    assert(t[j - 1] == s[j] && t[j] == s[j + 1]);
                    assert(!(t[j - 1] == ':' && t[j] == ' '));
                }
            }
        } else {
            assert forall|j: int| 0 <= j && j + 1 < s.len() implies !(#[trigger] s[j] == ':' && s[j + 1]
                == ' ') by {
                if j >= 1 {
                    assert(t[j - 1] == s[j] && t[j] == s[j + 1]);
                    assert(!(t[j - 1] == ':' && t[j] == ' '));
                }
            }
        }
    }
}

/// The values of a comma-separated list of digit strings, or `None` when
/// `s` is not of that form.  Leading zeros are allowed; the values are
/// unbounded naturals, so overflow is judged by the caller.
pub open spec fn parse_idlist(s: Seq<char>) -> Option<Seq<nat>>
    decreases s.len(),
{
    let c = first_index(s, ',');
    if !(0 <= c < s.len()) {
        if is_uint_str(s) {
            Some(seq![uint_val(s)])
        } else {
            None
        }
    } else {
        let head = s.subrange(0, c);
        if is_uint_str(head) {
            match parse_idlist(s.subrange(c + 1, s.len() as int)) {
                Some(rest) => Some(seq![uint_val(head)] + rest),
                None => None,
            }
        } else {
            None
        }
    }
}

/// Whether `pre` opens like a comparative prefix: `P,` or `C,`.
pub open spec fn comparative_opening(pre: Seq<char>) -> bool {
    pre.len() >= 2 && (pre[0] == 'P' || pre[0] == 'C') && pre[1] == ','
}

/// The comparative reading of a prefix body: `kind ',' idlist` optionally
/// followed by `'-' kind ',' idlist` with the opposite polarity.
pub open spec fn comparative_form(pre: Seq<char>) -> Option<(NodeType, Seq<nat>, Seq<nat>)> {
    if !comparative_opening(pre) {
        None
    } else {
        let kind = if pre[0] == 'P' {
            NodeType::Pro
        } else {
            NodeType::Con
        };
        let body = pre.subrange(2, pre.len() as int);
        let d = first_index(body, '-');
        if d < 0 {
            match parse_idlist(body) {
                Some(ids) => Some((kind, ids, Seq::<nat>::empty())),
                None => None,
            }
        } else {
            let left = body.subrange(0, d);
            let right = body.subrange(d + 1, body.len() as int);
            if right.len() >= 2 && right[0] == code_char(opposite(kind)) && right[1] == ',' {
                let same = parse_idlist(left);
                let diff = parse_idlist(right.subrange(2, right.len() as int));
                if same is Some && diff is Some {
                    Some((kind, same->0, diff->0))
                } else {
                    None
                }
            } else {
                None
            }
        }
    }
}

/// The plain reading of a prefix body: a single kind letter.
pub open spec fn plain_form(pre: Seq<char>) -> Option<NodeType> {
    if pre.len() == 1 {
        if pre[0] == 'D' {
            Some(NodeType::Decision)
        } else if pre[0] == 'O' {
            Some(NodeType::Option)
        } else if pre[0] == 'P' {
            Some(NodeType::Pro)
        } else if pre[0] == 'C' {
            Some(NodeType::Con)
        } else if pre[0] == 'N' {
            Some(NodeType::Note)
        } else {
            None
        }
    } else {
        None
    }
}

/// How the text of one line decodes, before overflow is judged.
pub ghost enum PrefixShape {
    /// No `": "` delimiter, or an unrecognizable prefix: the whole text is
    /// node text.
    Untyped,
    /// A single kind letter before the delimiter.
    Plain(NodeType),
    /// A comparative prefix: the kind, the same-polarity parent values and
    /// the opposite-polarity parent values.
    Comparative(NodeType, Seq<nat>, Seq<nat>),
    /// The prefix opens like a comparative (`P,` or `C,`) but fails the
    /// grammar.
    Malformed,
}

/// Decode the prefix of a line's text, per the grammar above.  The prefix is
/// whatever precedes the first `": "`; without that delimiter nothing is
/// recognized.
pub open spec fn decode_shape(text: Seq<char>) -> PrefixShape {
    let k = find_colon_space(text);
    if k < 0 {
        PrefixShape::Untyped
    } else {
        let pre = text.subrange(0, k);
        match comparative_form(pre) {
            Some((kind, same, diff)) => PrefixShape::Comparative(kind, same, diff),
            None => match plain_form(pre) {
                Some(kind) => PrefixShape::Plain(kind),
                None => if comparative_opening(pre) {
                    PrefixShape::Malformed
                } else {
                    PrefixShape::Untyped
                },
            },
        }
    }
}

/// The node text that remains once a recognized prefix is peeled off: what
/// follows the first `": "`.
pub open spec fn decode_rest(text: Seq<char>) -> Seq<char> {
    let k = find_colon_space(text);
    if k < 0 {
        text
    } else {
        text.subrange(k + 2, text.len() as int)
    }
}

/// Whether every value of a decoded id list fits the node-index width.
pub open spec fn ids_fit(ids: Seq<nat>) -> bool {
    forall|i: int| 0 <= i < ids.len() ==> #[trigger] ids[i] <= u32::MAX
}

/// A sequence of node indices as unbounded naturals.
pub open spec fn u32s_as_nats(s: Seq<u32>) -> Seq<nat> {
    s.map_values(|x: u32| x as nat)
}

/// Find the first `": "` of a string, the delimiter that closes a prefix.
pub(crate) fn find_colon_space_str(s: &str) -> (r: Option<usize>)
    ensures
        ({
            let k = find_colon_space(s@);
            match r {
                None => k == -1,
                Some(i) => k == i && i + 1 < s@.len(),
            }
        }),
{
    proof {
        lemma_find_colon_space(s@);
    }
    let n = s.unicode_len();
    if n < 2 {
        return None;
    }
    let mut i: usize = 0;
    while i < n - 1
        invariant
            n == s@.len(),
            2 <= n,
            i <= n,
            forall|j: int| 0 <= j < i ==> !(#[trigger] s@[j] == ':' && s@[j + 1] == ' '),
        decreases n - i,
    {
        if s.get_char(i) == ':' && s.get_char(i + 1) == ' ' {
            proof {
                lemma_find_colon_space(s@);
            }
            return Some(i);
        }
        i += 1;
    }
    proof {
        lemma_find_colon_space(s@);
    }
    None
}

/// Find the first occurrence of `c` within `s[from..to]`.
pub(crate) fn find_char_range(s: &str, from: usize, to: usize, c: char) -> (r: Option<usize>)
    requires
        from <= to <= s@.len(),
    ensures
        ({
            let fi = first_index(s@.subrange(from as int, to as int), c);
            match r {
                None => fi == -1,
                Some(m) => from <= m < to && fi == m - from,
            }
        }),
{
    let ghost sub = s@.subrange(from as int, to as int);
    proof {
        lemma_first_index(sub, c);
    }
    let mut i: usize = from;
    while i < to
        invariant
            from <= i <= to <= s@.len(),
            sub == s@.subrange(from as int, to as int),
            forall|j: int| 0 <= j < i - from ==> sub[j] != c,
        decreases to - i,
    {
        if s.get_char(i) == c {
            proof {
                assert(sub[i - from] == s@[i as int]);
                lemma_first_index(sub, c);
            }
            return Some(i);
        }
        proof {
            assert(sub[i - from] == s@[i as int]);
        }
        i += 1;
    }
    proof {
        lemma_first_index(sub, c);
    }
    None
}

/// The reading of one segment as an unsigned decimal.
pub(crate) enum UintOut {
    /// Not a non-empty run of digits.
    NotUint,
    /// A run of digits whose value exceeds `u32::MAX`.
    Big,
    /// A run of digits with this value.
    Val(u32),
}

/// Read `s[from..to]` as an unsigned decimal, distinguishing a malformed
/// segment from one whose value does not fit.
pub(crate) fn parse_uint_range(s: &str, from: usize, to: usize) -> (r: UintOut)
    requires
        from <= to <= s@.len(),
    ensures
        ({
            let sub = s@.subrange(from as int, to as int);
            match r {
                UintOut::NotUint => !is_uint_str(sub),
                UintOut::Big => is_uint_str(sub) && uint_val(sub) > u32::MAX,
                UintOut::Val(v) => is_uint_str(sub) && uint_val(sub) == v,
            }
        }),
{
    let ghost sub = s@.subrange(from as int, to as int);
    if from == to {
        return UintOut::NotUint;
    }
    let mut i: usize = from;
    let mut acc: u32 = 0;
    let mut big = false;
    while i < to
        invariant
            from <= i <= to <= s@.len(),
            sub == s@.subrange(from as int, to as int),
            forall|j: int| 0 <= j < i - from ==> is_digit(#[trigger] sub[j]),
            !big ==> acc == uint_val(sub.take(i - from)),
            big ==> uint_val(sub.take(i - from)) > u32::MAX,
        decreases to - i,
    {
        let c = s.get_char(i);
        proof {
            assert(sub[i - from] == s@[i as int]);
        }
        let v = c as u32;
        if v < 48 || v > 57 {
            return UintOut::NotUint;
        }
        let d = v - 48;
        proof {
            let k = i - from;
            assert(sub.take(k + 1).drop_last() =~= sub.take(k));
            assert(sub.take(k + 1).last() == sub[k]);
            assert(uint_val(sub.take(k + 1)) == uint_val(sub.take(k)) * 10 + digit_val(c));
            assert(digit_val(c) == d);
        }
        if big {
            proof {
                let old_val = uint_val(sub.take(i - from));
                assert(old_val * 10 >= old_val) by (nonlinear_arith);
            }
        } else {
            let next: u64 = acc as u64 * 10 + d as u64;
            if next > u32::MAX as u64 {
                big = true;
            } else {
                acc = next as u32;
            }
        }
        i += 1;
    }
    proof {
        assert(sub.take(to - from) =~= sub);
    }
    if big {
        UintOut::Big
    } else {
        UintOut::Val(acc)
    }
}

proof fn lemma_unfit_concat(a: Seq<nat>, b: Seq<nat>)
    requires
        !ids_fit(a),
    ensures
        !ids_fit(a + b),
{
    let i = choose|i: int| 0 <= i < a.len() && #[trigger] a[i] > u32::MAX;
    assert((a + b)[i] == a[i]);
}

/// The reading of a range as a comma-separated id list.
pub(crate) enum IdListOut {
    /// Not of the form `uint ( "," uint )*`.
    NotList,
    /// A well-formed list with at least one value beyond `u32::MAX`.
    Overflow,
    /// A well-formed list, every value in range.
    Values(Vec<u32>),
}

/// Read `s[from..to]` as an id list, per [`parse_idlist`].
pub(crate) fn parse_idlist_range(s: &str, from: usize, to: usize) -> (r: IdListOut)
    requires
        from <= to <= s@.len(),
    ensures
        ({
            let sub = s@.subrange(from as int, to as int);
            match r {
                IdListOut::NotList => parse_idlist(sub) is None,
                IdListOut::Overflow => parse_idlist(sub) matches Some(ids) && !ids_fit(ids),
                IdListOut::Values(v) => parse_idlist(sub) matches Some(ids) && ids_fit(ids)
                    && u32s_as_nats(v@) == ids,
            }
        }),
{
    let ghost whole = s@.subrange(from as int, to as int);
    let mut values: Vec<u32> = Vec::new();
    let ghost mut gvals = Seq::<nat>::empty();
    let mut saw_big = false;
    let mut pos: usize = from;
    proof {
        if parse_idlist(whole) is Some {
            assert(Seq::<nat>::empty() + parse_idlist(whole)->0 =~= parse_idlist(whole)->0);
        }
        assert(u32s_as_nats(values@) =~= gvals);
    }
    loop
        invariant
            from <= pos <= to <= s@.len(),
            whole == s@.subrange(from as int, to as int),
            parse_idlist(whole) == (match parse_idlist(s@.subrange(pos as int, to as int)) {
                Some(r) => Some(gvals + r),
                None => None::<Seq<nat>>,
            }),
            !saw_big ==> u32s_as_nats(values@) == gvals && ids_fit(gvals),
            saw_big ==> !ids_fit(gvals),
        decreases to - pos,
    {
        let ghost rem = s@.subrange(pos as int, to as int);
        proof {
            lemma_first_index(rem, ',');
        }
        match find_char_range(s, pos, to, ',') {
            Some(m) => {
                let ghost c = first_index(rem, ',');
                proof {
                    assert(c == m - pos);
                    assert(rem.subrange(0, c) =~= s@.subrange(pos as int, m as int));
                    assert(rem.subrange(c + 1, rem.len() as int) =~= s@.subrange(
                        m + 1,
                        to as int,
                    ));
                }
                match parse_uint_range(s, pos, m) {
                    UintOut::NotUint => {
                        return IdListOut::NotList;
                    },
                    UintOut::Big => {
                        proof {
                            let hv = uint_val(s@.subrange(pos as int, m as int));
                            let next = s@.subrange(m + 1, to as int);
                            if parse_idlist(next) is Some {
                                assert(gvals + (seq![hv] + parse_idlist(next)->0) =~= (gvals
                                    + seq![hv]) + parse_idlist(next)->0);
                            }
                            gvals = gvals + seq![hv];
                            assert(!ids_fit(gvals)) by {
                                assert(gvals[gvals.len() - 1] == hv);
                            }
                        }
                        saw_big = true;
                    },
                    UintOut::Val(v) => {
                        proof {
                            let hv = uint_val(s@.subrange(pos as int, m as int));
                            let next = s@.subrange(m + 1, to as int);
                            if parse_idlist(next) is Some {
                                assert(gvals + (seq![hv] + parse_idlist(next)->0) =~= (gvals
                                    + seq![hv]) + parse_idlist(next)->0);
                            }
                            if saw_big {
                                lemma_unfit_concat(gvals, seq![hv]);
                            }
                            gvals = gvals + seq![hv];
                        }
                        if !saw_big {
                            values.push(v);
                            proof {
                                assert(u32s_as_nats(values@) =~= gvals);
                            }
                        }
                    },
                }
                pos = m + 1;
            },
            None => {
                proof {
                    assert(rem =~= s@.subrange(pos as int, to as int));
                }
                match parse_uint_range(s, pos, to) {
                    UintOut::NotUint => {
                        return IdListOut::NotList;
                    },
                    UintOut::Big => {
                        proof {
                            let hv = uint_val(rem);
                            gvals = gvals + seq![hv];
                            assert(!ids_fit(gvals)) by {
                                assert(gvals[gvals.len() - 1] == hv);
                            }
                        }
                        return IdListOut::Overflow;
                    },
                    UintOut::Val(v) => {
                        let ghost hv = uint_val(rem);
                        proof {
                            if saw_big {
                                lemma_unfit_concat(gvals, seq![hv]);
                            }
                            gvals = gvals + seq![hv];
                        }
                        if saw_big {
                            return IdListOut::Overflow;
                        }
                        values.push(v);
                        proof {
                            assert(u32s_as_nats(values@) =~= gvals);
                        }
                        return IdListOut::Values(values);
                    },
                }
            },
        }
    }
}

/// The decoded reading of one line's text.
pub(crate) enum PrefixOut {
    /// No recognizable prefix: the whole text is node text.
    Untyped,
    /// A plain kind prefix, with the node text that follows the delimiter.
    Plain(NodeType, String),
    /// A comparative prefix: kind, same-polarity parents, opposite-polarity
    /// parents, and the node text that follows the delimiter.
    Comp(NodeType, Vec<u32>, Vec<u32>, String),
    /// A prefix that opens like a comparative but fails the grammar.
    Malformed,
    /// A comparative prefix with a parent value beyond `u32::MAX`.
    Overflow,
}

/// Decode the prefix of a line's text against the grammar; the returned
/// variant mirrors [`decode_shape`] exactly, with overflow split out.
pub(crate) fn decode_prefix(text: &str) -> (r: PrefixOut)
    ensures
        ({
            let shape = decode_shape(text@);
            match r {
                PrefixOut::Untyped => shape is Untyped,
                PrefixOut::Plain(k, rest) => shape == PrefixShape::Plain(k) && rest@
                    == decode_rest(text@),
                PrefixOut::Comp(k, sv, dv, rest) => shape == PrefixShape::Comparative(
                    k,
                    u32s_as_nats(sv@),
                    u32s_as_nats(dv@),
                ) && ids_fit(u32s_as_nats(sv@)) && ids_fit(u32s_as_nats(dv@)) && rest@
                    == decode_rest(text@),
                PrefixOut::Malformed => shape is Malformed,
                PrefixOut::Overflow => shape matches PrefixShape::Comparative(_, same, diff)
                    && !(ids_fit(same) && ids_fit(diff)),
            }
        }),
{
    let n = text.unicode_len();
    let kpos = match find_colon_space_str(text) {
        None => {
            return PrefixOut::Untyped;
        },
        Some(k) => k,
    };
    let ghost pre = text@.subrange(0, kpos as int);
    let rest = String::from_str(text.substring_char(kpos + 2, n));
    proof {
        assert(rest@ == decode_rest(text@));
    }
    let opening = kpos >= 2 && (text.get_char(0) == 'P' || text.get_char(0) == 'C')
        && text.get_char(1) == ',';
    proof {
        assert(kpos >= 1 ==> pre[0] == text@[0]);
        assert(kpos >= 2 ==> pre[1] == text@[1]);
        assert(opening == comparative_opening(pre));
    }
    if !opening {
        if kpos == 1 {
            let c = text.get_char(0);
            proof {
                assert(pre =~= seq![text@[0]]);
            }
            match c {
                'D' => PrefixOut::Plain(NodeType::Decision, rest),
                'O' => PrefixOut::Plain(NodeType::Option, rest),
                'P' => PrefixOut::Plain(NodeType::Pro, rest),
                'C' => PrefixOut::Plain(NodeType::Con, rest),
                'N' => PrefixOut::Plain(NodeType::Note, rest),
                _ => PrefixOut::Untyped,
            }
        } else {
            PrefixOut::Untyped
        }
    } else {
        let kind = if text.get_char(0) == 'P' {
            NodeType::Pro
        } else {
            NodeType::Con
        };
        let ghost body = pre.subrange(2, pre.len() as int);
        proof {
            assert(body =~= text@.subrange(2, kpos as int));
        }
        match find_char_range(text, 2, kpos, '-') {
            None => {
                match parse_idlist_range(text, 2, kpos) {
                    IdListOut::NotList => PrefixOut::Malformed,
                    IdListOut::Overflow => PrefixOut::Overflow,
                    IdListOut::Values(v) => {
                        let dv: Vec<u32> = Vec::new();
                        proof {
                            assert(u32s_as_nats(dv@) =~= Seq::<nat>::empty());
                        }
                        PrefixOut::Comp(kind, v, dv, rest)
                    },
                }
            },
            Some(d) => {
                let ghost di = first_index(body, '-');
                proof {
                    assert(di == d - 2);
                    assert(body.subrange(0, di) =~= text@.subrange(2, d as int));
                    assert(body.subrange(di + 1, body.len() as int) =~= text@.subrange(
                        d + 1,
                        kpos as int,
                    ));
                }
                let ghost right = body.subrange(di + 1, body.len() as int);
                if d + 3 <= kpos && text.get_char(d + 1) == code_char_exec(opposite_exec(kind))
                    && text.get_char(d + 2) == ',' {
                    proof {
                        assert(right[0] == text@[d + 1] && right[1] == text@[d + 2]);
                        assert(right.subrange(2, right.len() as int) =~= text@.subrange(
                            d + 3,
                            kpos as int,
                        ));
                    }
                    let same = parse_idlist_range(text, 2, d);
                    let diff = parse_idlist_range(text, d + 3, kpos);
                    match (same, diff) {
                        (IdListOut::NotList, _) => PrefixOut::Malformed,
                        (_, IdListOut::NotList) => PrefixOut::Malformed,
                        (IdListOut::Values(sv), IdListOut::Values(dv)) => PrefixOut::Comp(
                            kind,
                            sv,
                            dv,
                            rest,
                        ),
                        _ => PrefixOut::Overflow,
                    }
                } else {
                    proof {
                        if right.len() >= 2 {
                            assert(right[0] == text@[d + 1] && right[1] == text@[d + 2]);
                        }
                    }
                    PrefixOut::Malformed
                }
            },
        }
    }
}

/// The comma-joined decimal rendering of an id list.
pub open spec fn joined_ids(ids: Seq<u32>) -> Seq<char>
    decreases ids.len(),
{
    if ids.len() == 0 {
        Seq::<char>::empty()
    } else if ids.len() == 1 {
        dec_digits(ids[0] as nat)
    } else {
        dec_digits(ids[0] as nat) + seq![','] + joined_ids(ids.drop_first())
    }
}

/// The textual prefix written before a node's text.  An untyped node has no
/// prefix at all.  A typed node opens with its kind letter; the primary
/// parent list is written out only when it cannot be left implicit (more
/// than one parent, or opposite-polarity parents present), and the
/// opposite-polarity list follows after a dash with the opposite kind
/// letter.  A non-empty prefix always closes with `": "`.
pub open spec fn encode_prefix_spec(n: crate::structs::NodeV) -> Seq<char> {
    match n.type_is {
        None => Seq::<char>::empty(),
        Some(k) => {
            let has_diff = (k == NodeType::Pro || k == NodeType::Con)
                && n.parent_idxs_diff_type.len() > 0;
            let s1 = seq![code_char(k)];
            let s2 = if n.parent_idxs.len() > 0 && (n.parent_idxs.len() > 1 || has_diff) {
                s1 + seq![','] + joined_ids(n.parent_idxs)
            } else {
                s1
            };
            let s3 = if has_diff {
                s2 + seq!['-', code_char(opposite(k)), ','] + joined_ids(n.parent_idxs_diff_type)
            } else {
                s2
            };
            s3 + seq![':', ' ']
        },
    }
}

/// Joining a list and then one more value appends a comma and the value's
/// decimal form (or is just the value's decimal form for an empty list).
pub proof fn lemma_joined_push(ids: Seq<u32>, x: u32)
    ensures
        joined_ids(ids.push(x)) == if ids.len() == 0 {
            dec_digits(x as nat)
        } else {
            joined_ids(ids) + seq![','] + dec_digits(x as nat)
        },
    decreases ids.len(),
{
    if ids.len() == 0 {
        assert(ids.push(x).len() == 1);
        assert(ids.push(x)[0] == x);
    } else {
        lemma_joined_push(ids.drop_first(), x);
        assert(ids.push(x).drop_first() =~= ids.drop_first().push(x));
        assert(ids.push(x)[0] == ids[0]);
        if ids.len() == 1 {
            assert(ids.drop_first().len() == 0);
            assert(joined_ids(ids.push(x)) == dec_digits(ids[0] as nat) + seq![','] + dec_digits(
                x as nat,
            ));
        } else {
            assert(joined_ids(ids.push(x)) == dec_digits(ids[0] as nat) + seq![','] + (joined_ids(
                ids.drop_first(),
            ) + seq![','] + dec_digits(x as nat)));
            assert(dec_digits(ids[0] as nat) + seq![','] + (joined_ids(ids.drop_first())
                + seq![','] + dec_digits(x as nat)) =~= (dec_digits(ids[0] as nat) + seq![',']
                + joined_ids(ids.drop_first())) + seq![','] + dec_digits(x as nat));
        }
    }
}

/// Every character of a joined id list is a digit or a comma.
pub proof fn lemma_joined_shape(ids: Seq<u32>)
    ensures
        forall|i: int|
            0 <= i < joined_ids(ids).len() ==> (is_digit(#[trigger] joined_ids(ids)[i])
                || joined_ids(ids)[i] == ','),
    decreases ids.len(),
{
    if ids.len() == 0 {
    } else if ids.len() == 1 {
        lemma_dec_digits_shape(ids[0] as nat);
    } else {
        lemma_dec_digits_shape(ids[0] as nat);
        lemma_joined_shape(ids.drop_first());
        let whole = joined_ids(ids);
        let head = dec_digits(ids[0] as nat);
        let tail = joined_ids(ids.drop_first());
        assert forall|i: int| 0 <= i < whole.len() implies (is_digit(#[trigger] whole[i])
            || whole[i] == ',') by {
            if i < head.len() {
                assert(whole[i] == head[i]);
            } else if i == head.len() {
                assert(whole[i] == ',');
            } else {
                assert(whole[i] == tail[i - head.len() - 1]);
            }
        }
    }
}

/// The decimal rendering of one id value.
pub(crate) fn u32_to_decimal(x: u32) -> (s: String)
    ensures
        s@ == dec_digits(x as nat),
    decreases x,
{
    if x < 10 {
        String::from_str(digit_str(x))
    } else {
        let mut s = u32_to_decimal(x / 10);
        s.append(digit_str(x % 10));
        s
    }
}

/// The one-character string for a single decimal digit.
fn digit_str(d: u32) -> (r: &'static str)
    requires
        d < 10,
    ensures
        r@ == seq![digit_char(d as nat)],
{
    proof {
        reveal_strlit("0");
        reveal_strlit("1");
        reveal_strlit("2");
        reveal_strlit("3");
        reveal_strlit("4");
        reveal_strlit("5");
        reveal_strlit("6");
        reveal_strlit("7");
        reveal_strlit("8");
        reveal_strlit("9");
    }
    let r = match d {
        0 => "0",
        1 => "1",
        2 => "2",
        3 => "3",
        4 => "4",
        5 => "5",
        6 => "6",
        7 => "7",
        8 => "8",
        _ => "9",
    };
    proof {
        assert(r@ =~= seq![digit_char(d as nat)]);
    }
    r
}

/// Append the comma-joined decimal rendering of `ids` to `s`.
pub(crate) fn append_joined_ids(s: &mut String, ids: &Vec<u32>)
    ensures
        final(s)@ == old(s)@ + joined_ids(ids@),
{
    proof {
        reveal_strlit(",");
    }
    let mut i: usize = 0;
    proof {
        assert(ids@.take(0) =~= Seq::<u32>::empty());
        assert(s@ + joined_ids(ids@.take(0)) =~= s@);
    }
    while i < ids.len()
        invariant
            i <= ids@.len(),
            s@ == old(s)@ + joined_ids(ids@.take(i as int)),
            ","@ == seq![','],
        decreases ids@.len() - i,
    {
        proof {
            lemma_joined_push(ids@.take(i as int), ids@[i as int]);
            assert(ids@.take(i + 1) =~= ids@.take(i as int).push(ids@[i as int]));
        }
        if i > 0 {
            s.append(",");
        }
        let d = u32_to_decimal(ids[i]);
        s.append(d.as_str());
        proof {
            if i == 0 {
                assert(old(s)@ + joined_ids(ids@.take(1)) =~= s@);
            } else {
                assert(old(s)@ + joined_ids(ids@.take(i + 1)) =~= s@);
            }
        }
        i += 1;
    }
    proof {
        assert(ids@.take(ids@.len() as int) =~= ids@);
    }
}

proof fn lemma_digit_not_special(c: char)
    requires
        is_digit(c),
    ensures
        c != ',' && c != '-' && c != ':' && c != '\n',
{
}

/// Reading back a comma-joined id list gives back exactly the values.
pub proof fn lemma_parse_idlist_joined(ids: Seq<u32>)
    requires
        ids.len() > 0,
    ensures
        parse_idlist(joined_ids(ids)) == Some(u32s_as_nats(ids)),
        ids_fit(u32s_as_nats(ids)),
    decreases ids.len(),
{
    let j = joined_ids(ids);
    lemma_joined_shape(ids);
    lemma_first_index(j, ',');
    assert(ids_fit(u32s_as_nats(ids)));
    if ids.len() == 1 {
        lemma_dec_digits_shape(ids[0] as nat);
        lemma_dec_digits_val(ids[0] as nat);
        assert(j == dec_digits(ids[0] as nat));
        assert forall|i: int| 0 <= i < j.len() implies j[i] != ',' by {
            lemma_digit_not_special(j[i]);
        }
        assert(first_index(j, ',') == -1);
        assert(is_uint_str(j));
        assert(seq![uint_val(j)] =~= u32s_as_nats(ids));
    } else {
        let d0 = dec_digits(ids[0] as nat);
        let rest = joined_ids(ids.drop_first());
        lemma_dec_digits_shape(ids[0] as nat);
        lemma_dec_digits_val(ids[0] as nat);
        lemma_parse_idlist_joined(ids.drop_first());
        assert(j == d0 + seq![','] + rest);
        assert(j[d0.len() as int] == ',');
        assert forall|i: int| 0 <= i < d0.len() implies j[i] != ',' by {
            assert(j[i] == d0[i]);
            lemma_digit_not_special(d0[i]);
        }
        let c = first_index(j, ',');
        assert(c != -1);
        assert(c == d0.len());
        assert(j.subrange(0, c) =~= d0);
        assert(j.subrange(c + 1, j.len() as int) =~= rest);
        assert(seq![uint_val(d0)] + u32s_as_nats(ids.drop_first()) =~= u32s_as_nats(ids));
    }
}

/// The shape of a non-empty encoded prefix: it closes with `": "` and no
/// colon occurs before that delimiter.
pub proof fn lemma_encode_shape(n: crate::structs::NodeV)
    requires
        n.type_is is Some,
    ensures
        ({
            let e = encode_prefix_spec(n);
            &&& e.len() >= 3
            &&& e[e.len() - 2] == ':'
            &&& e[e.len() - 1] == ' '
            &&& e[0] == code_char(n.type_is->0)
            &&& forall|i: int| 0 <= i < e.len() - 2 ==> (#[trigger] e[i]) != ':'
            &&& forall|i: int| 0 <= i < e.len() ==> (#[trigger] e[i]) != '\n'
        }),
{
    let k = n.type_is->0;
    let has_diff = (k == NodeType::Pro || k == NodeType::Con) && n.parent_idxs_diff_type.len() > 0;
    let s1 = seq![code_char(k)];
    let s2 = if n.parent_idxs.len() > 0 && (n.parent_idxs.len() > 1 || has_diff) {
        s1 + seq![','] + joined_ids(n.parent_idxs)
    } else {
        s1
    };
    let s3 = if has_diff {
        s2 + seq!['-', code_char(opposite(k)), ','] + joined_ids(n.parent_idxs_diff_type)
    } else {
        s2
    };
    let e = encode_prefix_spec(n);
    assert(e == s3 + seq![':', ' ']);
    lemma_joined_shape(n.parent_idxs);
    lemma_joined_shape(n.parent_idxs_diff_type);
    assert forall|i: int| 0 <= i < s2.len() implies (#[trigger] s2[i]) != ':' by {
        if i >= 2 {
            assert(s2[i] == joined_ids(n.parent_idxs)[i - 2]);
            if is_digit(s2[i]) {
                lemma_digit_not_special(s2[i]);
            }
        }
    }
    assert forall|i: int| 0 <= i < s3.len() implies (#[trigger] s3[i]) != ':' by {
        if i >= s2.len() + 3 {
            assert(s3[i] == joined_ids(n.parent_idxs_diff_type)[i - s2.len() - 3]);
            if is_digit(s3[i]) {
                lemma_digit_not_special(s3[i]);
            }
        }
    }
    assert forall|i: int| 0 <= i < e.len() - 2 implies (#[trigger] e[i]) != ':' by {
        assert(e[i] == s3[i]);
    }
    assert forall|i: int| 0 <= i < s2.len() implies (#[trigger] s2[i]) != '\n' by {
        if i >= 2 {
            assert(s2[i] == joined_ids(n.parent_idxs)[i - 2]);
            if is_digit(s2[i]) {
                lemma_digit_not_special(s2[i]);
            }
        }
    }
    assert forall|i: int| 0 <= i < s3.len() implies (#[trigger] s3[i]) != '\n' by {
        if i >= s2.len() + 3 {
            assert(s3[i] == joined_ids(n.parent_idxs_diff_type)[i - s2.len() - 3]);
            if is_digit(s3[i]) {
                lemma_digit_not_special(s3[i]);
            }
        }
    }
    assert forall|i: int| 0 <= i < e.len() implies (#[trigger] e[i]) != '\n' by {
        if i < s3.len() {
            assert(e[i] == s3[i]);
        }
    }
    assert(e[e.len() - 2] == ':');
    assert(e[e.len() - 1] == ' ');
}

/// Codec round trip at the prefix level: decoding an encoded prefix glued
/// to the node's text finds the delimiter exactly where the encoder put it,
/// reads back the same kind and parent values, and leaves the text intact.
/// The premises delimit the encodings that are not minimal-implicit: a
/// typed node writes its lists only when they cannot be inferred.
#[verifier::rlimit(80)]
pub proof fn lemma_prefix_round_trip(n: crate::structs::NodeV)
    requires
        n.type_is is Some,
        n.parent_idxs_diff_type.len() > 0 ==> (n.type_is == Some(NodeType::Pro) || n.type_is
            == Some(NodeType::Con)) && n.parent_idxs.len() > 0,
        n.parent_idxs_diff_type.len() == 0 && n.parent_idxs.len() >= 2 ==> (n.type_is == Some(
            NodeType::Pro,
        ) || n.type_is == Some(NodeType::Con)),
    ensures
        decode_rest(encode_prefix_spec(n) + n.text) == n.text,
        decode_shape(encode_prefix_spec(n) + n.text) == (
        if n.parent_idxs.len() <= 1 && n.parent_idxs_diff_type.len() == 0 {
            PrefixShape::Plain(n.type_is->0)
        } else {
            PrefixShape::Comparative(
                n.type_is->0,
                u32s_as_nats(n.parent_idxs),
                u32s_as_nats(n.parent_idxs_diff_type),
            )
        }),
{
    let k = n.type_is->0;
    let e = encode_prefix_spec(n);
    let s = e + n.text;
    lemma_encode_shape(n);
    lemma_find_colon_space(s);
    let kpos = find_colon_space(s);
    assert(s[e.len() - 2] == ':' && s[e.len() - 1] == ' ');
    assert forall|i: int| 0 <= i < e.len() - 2 implies s[i] != ':' by {
        assert(s[i] == e[i]);
    }
    assert(kpos != -1);
    assert(kpos == e.len() - 2);
    let pre = s.subrange(0, kpos);
    assert(s.subrange(kpos + 2, s.len() as int) =~= n.text);
    let has_diff = (k == NodeType::Pro || k == NodeType::Con) && n.parent_idxs_diff_type.len() > 0;
    let s1 = seq![code_char(k)];
    let s2 = if n.parent_idxs.len() > 0 && (n.parent_idxs.len() > 1 || has_diff) {
        s1 + seq![','] + joined_ids(n.parent_idxs)
    } else {
        s1
    };
    let s3 = if has_diff {
        s2 + seq!['-', code_char(opposite(k)), ','] + joined_ids(n.parent_idxs_diff_type)
    } else {
        s2
    };
    assert(pre =~= s3);
    if n.parent_idxs.len() <= 1 && n.parent_idxs_diff_type.len() == 0 {
        assert(pre =~= seq![code_char(k)]);
        assert(comparative_form(pre) is None);
        assert(plain_form(pre) == Some(k));
    } else {
        assert(k == NodeType::Pro || k == NodeType::Con);
        let js = joined_ids(n.parent_idxs);
        lemma_joined_shape(n.parent_idxs);
        lemma_parse_idlist_joined(n.parent_idxs);
        assert(pre[0] == code_char(k) && pre[1] == ',');
        assert(comparative_opening(pre));
        let kind = if pre[0] == 'P' {
            NodeType::Pro
        } else {
            NodeType::Con
        };
        assert(kind == k);
        let body = pre.subrange(2, pre.len() as int);
        lemma_first_index(body, '-');
        let d = first_index(body, '-');
        if !has_diff {
            assert(body =~= js);
            assert forall|i: int| 0 <= i < body.len() implies body[i] != '-' by {
                if is_digit(body[i]) {
                    lemma_digit_not_special(body[i]);
                }
            }
            assert(d == -1);
            assert(comparative_form(pre) == Some(
                (kind, u32s_as_nats(n.parent_idxs), Seq::<nat>::empty()),
            ));
            assert(u32s_as_nats(n.parent_idxs_diff_type) =~= Seq::<nat>::empty());
        } else {
            let jd = joined_ids(n.parent_idxs_diff_type);
            lemma_joined_shape(n.parent_idxs_diff_type);
            lemma_parse_idlist_joined(n.parent_idxs_diff_type);
            assert(body =~= js + seq!['-', code_char(opposite(k)), ','] + jd);
            assert(body[js.len() as int] == '-');
            assert forall|i: int| 0 <= i < js.len() implies body[i] != '-' by {
                assert(body[i] == js[i]);
                if is_digit(js[i]) {
                    lemma_digit_not_special(js[i]);
                }
            }
            assert(d != -1);
            assert(d == js.len());
            assert(body.subrange(0, d) =~= js);
            let right = body.subrange(d + 1, body.len() as int);
            assert(right.len() >= 2);
            assert(right[0] == code_char(opposite(k)));
            assert(right[1] == ',');
            assert(right.subrange(2, right.len() as int) =~= jd);
            assert(opposite(kind) == opposite(k));
            assert(comparative_form(pre) == Some(
                (kind, u32s_as_nats(n.parent_idxs), u32s_as_nats(n.parent_idxs_diff_type)),
            ));
        }
    }
}

/// The single-letter code of a node kind, as an executable character.
pub(crate) fn code_char_exec(t: NodeType) -> (c: char)
    ensures
        c == code_char(t),
{
    match t {
        NodeType::Decision => 'D',
        NodeType::Option => 'O',
        NodeType::Pro => 'P',
        NodeType::Con => 'C',
        NodeType::Note => 'N',
    }
}

/// The opposite polarity of a Pro/Con kind, as executable code.
pub(crate) fn opposite_exec(t: NodeType) -> (r: NodeType)
    ensures
        r == opposite(t),
{
    match t {
        NodeType::Pro => NodeType::Con,
        NodeType::Con => NodeType::Pro,
        NodeType::Decision => NodeType::Decision,
        NodeType::Option => NodeType::Option,
        NodeType::Note => NodeType::Note,
    }
}

} // verus!
