//! The protocol's JSON framing: the header object, per-tick arrays of
//! blocks, and the decoders that read emitted lines back.  The grammar
//! is fixed: field names and their order are part of the protocol.

use vstd::prelude::*;
use crate::fmt::all_digits;
use crate::fmt::dec_digits;
use crate::fmt::dec_string;
use crate::fmt::digit_val;
use crate::fmt::digits_val;
use crate::fmt::is_digit;
use crate::fmt::lemma_dec_digits_leading;
use crate::fmt::lemma_dec_digits_len;
use crate::fmt::lemma_dec_digits_shape;
use crate::fmt::lemma_dec_digits_val;
use crate::fmt::lemma_digits_canonical;
use crate::fmt::lemma_pow10_20;
use crate::fmt::lemma_pow10_mono;
use crate::fmt::pow10;
use crate::model::I3BarBlock;
use crate::model::I3BarHeader;

verus! {

// ------------------------------------------------------------------
// The grammar's fixed pieces
// ------------------------------------------------------------------

/// Everything of a block's line before its text: `{"full_text":"`.
pub open spec fn bj_pre() -> Seq<char> {
    "{\"full_text\":\""@
}

/// Between a block's text and its color: `","color":"`.
pub open spec fn bj_mid() -> Seq<char> {
    "\",\"color\":\""@
}

/// After a block's color: `"}`.
pub open spec fn bj_suf() -> Seq<char> {
    "\"}"@
}

/// One block as a JSON object, both strings unescaped (the texts the
/// probes emit never need escaping).
pub open spec fn block_json_text(ft: Seq<char>, c: Seq<char>) -> Seq<char> {
    bj_pre() + ft + bj_mid() + c + bj_suf()
}

/// The blocks of one tick, comma separated, without the brackets.
pub open spec fn blocks_inner_text(bs: Seq<I3BarBlock>) -> Seq<char>
    decreases bs.len(),
{
    if bs.len() == 0 {
        Seq::empty()
    } else if bs.len() == 1 {
        block_json_text(bs[0].full_text@, bs[0].color@)
    } else {
        blocks_inner_text(bs.drop_last()) + seq![','] + block_json_text(
            bs.last().full_text@,
            bs.last().color@,
        )
    }
}

/// The blocks of one tick as a JSON array.
pub open spec fn blocks_json_text(bs: Seq<I3BarBlock>) -> Seq<char> {
    seq!['['] + blocks_inner_text(bs) + seq![']']
}

/// One emitted tick line: the array immediately followed by the
/// protocol's trailing comma, nothing between or after.
pub open spec fn tick_line_text(bs: Seq<I3BarBlock>) -> Seq<char> {
    blocks_json_text(bs) + seq![',']
}

/// The header as a JSON object, fields in protocol order.
pub open spec fn header_json_text(h: I3BarHeader) -> Seq<char> {
    "{\"version\":"@ + dec_digits(h.version as nat) + ",\"stop_signal\":"@ + dec_digits(
        h.stop_signal as nat,
    ) + ",\"cont_signal\":"@ + dec_digits(h.cont_signal as nat) + ",\"click_events\":"@ + (
    if h.click_events {
        "true"@
    } else {
        "false"@
    }) + "}"@
}

/// The one startup line: the header object immediately followed by
/// `[`, which opens the protocol's unbounded top-level array.
pub open spec fn startup_line_text(h: I3BarHeader) -> Seq<char> {
    header_json_text(h) + seq!['[']
}

// ------------------------------------------------------------------
// Encoders
// ------------------------------------------------------------------

/// Encodes one block as its JSON object.
pub fn block_json(b: &I3BarBlock) -> (r: String)
    ensures
        r@ == block_json_text(b.full_text@, b.color@),
{
    let mut s = String::from_str("{\"full_text\":\"");
    s.append(b.full_text.as_str());
    s.append("\",\"color\":\"");
    s.append(b.color.as_str());
    s.append("\"}");
    s
}

/// Encodes one tick's blocks as a JSON array.
pub fn blocks_json(blocks: &Vec<I3BarBlock>) -> (r: String)
    ensures
        r@ == blocks_json_text(blocks@),
{
    proof {
        reveal_strlit("[");
        reveal_strlit(",");
        reveal_strlit("]");
    }
    let mut s = String::from_str("[");
    proof {
        assert(s@ =~= seq!['['] + blocks_inner_text(blocks@.take(0)));
    }
    let n = blocks.len();
    let mut i: usize = 0;
    while i < n
        invariant
            i <= n,
            n == blocks@.len(),
            s@ == seq!['['] + blocks_inner_text(blocks@.take(i as int)),
        decreases n - i,
    {
        if i > 0 {
            s.append(",");
        }
        let ghost mid = s@;
        let bj = block_json(&blocks[i]);
        s.append(bj.as_str());
        proof {
            assert(bj@ == block_json_text(blocks@[i as int].full_text@, blocks@[i as int].color@));
            assert(s@ == mid + bj@);
            let taken = blocks@.take(i + 1);
            assert(taken.drop_last() =~= blocks@.take(i as int));
            assert(taken.last() == blocks@[i as int]);
            assert(taken.len() == i + 1);
            if i == 0 {
                assert(blocks_inner_text(taken) == block_json_text(
                    taken[0].full_text@,
                    taken[0].color@,
                ));
                assert(taken[0] == blocks@[i as int]);
                assert(blocks_inner_text(blocks@.take(i as int)) == Seq::<char>::empty());
                assert(blocks_inner_text(taken) == bj@);
                assert(mid =~= seq!['[']);
                assert(s@ =~= seq!['['] + blocks_inner_text(taken));
            } else {
                reveal_strlit(",");
                assert(","@ =~= seq![',']);
                assert(mid =~= seq!['['] + blocks_inner_text(blocks@.take(i as int)) + seq![',']);
                assert(blocks_inner_text(taken) == blocks_inner_text(taken.drop_last())
                    + seq![','] + block_json_text(taken.last().full_text@, taken.last().color@));
                assert(blocks_inner_text(taken.drop_last()) == blocks_inner_text(
                    blocks@.take(i as int),
                ));
                assert(s@ =~= seq!['['] + blocks_inner_text(taken));
            }
        }
        i += 1;
    }
    proof {
        assert(blocks@.take(n as int) =~= blocks@);
    }
    s.append("]");
    proof {
        assert(s@ =~= blocks_json_text(blocks@));
    }
    s
}

/// Frames one tick line: the array plus the protocol's trailing comma.
pub fn tick_line(blocks: &Vec<I3BarBlock>) -> (r: String)
    ensures
        r@ == tick_line_text(blocks@),
{
    proof {
        reveal_strlit(",");
    }
    let mut s = blocks_json(blocks);
    s.append(",");
    proof {
        assert(s@ =~= tick_line_text(blocks@));
    }
    s
}

/// Encodes the header object.
pub fn header_json(h: &I3BarHeader) -> (r: String)
    ensures
        r@ == header_json_text(*h),
{
    proof {
        assert(usize::MAX <= u64::MAX);
    }
    let mut s = String::from_str("{\"version\":");
    s.append(dec_string(h.version as u64).as_str());
    s.append(",\"stop_signal\":");
    s.append(dec_string(h.stop_signal as u64).as_str());
    s.append(",\"cont_signal\":");
    s.append(dec_string(h.cont_signal as u64).as_str());
    s.append(",\"click_events\":");
    if h.click_events {
        s.append("true");
    } else {
        s.append("false");
    }
    s.append("}");
    s
}

/// Frames the one startup line: the header object plus the opening
/// `[` of the top-level array.
pub fn startup_line(h: &I3BarHeader) -> (r: String)
    ensures
        r@ == startup_line_text(*h),
{
    proof {
        reveal_strlit("[");
    }
    let mut s = header_json(h);
    s.append("[");
    proof {
        assert(s@ =~= startup_line_text(*h));
    }
    s
}

// ------------------------------------------------------------------
// Decoders
// ------------------------------------------------------------------

/// No character of `s` is a double quote.  The decoder reads back
/// exactly the lines whose embedded strings satisfy this; everything
/// the probes emit does.
pub open spec fn no_quote(s: Seq<char>) -> bool {
    forall|i: int| 0 <= i < s.len() ==> s[i] != '"'
}

/// True exactly when `pat` stands in `s` at position `at`.
fn match_at(s: &str, at: usize, pat: &str) -> (r: bool)
    requires
        at + pat@.len() <= s@.len(),
        s@.len() <= usize::MAX,
    ensures
        r <==> s@.subrange(at as int, at as int + pat@.len() as int) == pat@,
{
    let m = pat.unicode_len();
    let mut i: usize = 0;
    while i < m
        invariant
            i <= m,
            m == pat@.len(),
            at + m <= s@.len(),
            s@.len() <= usize::MAX,
            forall|j: int| 0 <= j < i ==> s@[at + j] == pat@[j],
        decreases m - i,
    {
        if s.get_char(at + i) != pat.get_char(i) {
            proof {
                let sub = s@.subrange(at as int, at as int + pat@.len() as int);
                assert(sub[i as int] == s@[at + i]);
            }
            return false;
        }
        i += 1;
    }
    proof {
        assert(s@.subrange(at as int, at as int + pat@.len() as int) =~= pat@);
    }
    true
}

/// The position of the first `target` at or after `from`, if any.
fn find_char(s: &str, from: usize, target: char) -> (r: Option<usize>)
    requires
        from <= s@.len(),
    ensures
        match r {
            Some(i) => from <= i < s@.len() && s@[i as int] == target && forall|j: int|
                from <= j < i ==> s@[j] != target,
            None => forall|j: int| from <= j < s@.len() ==> s@[j] != target,
        },
{
    let n = s.unicode_len();
    let mut i: usize = from;
    while i < n
        invariant
            from <= i <= n,
            n == s@.len(),
            forall|j: int| from <= j < i ==> s@[j] != target,
        decreases n - i,
    {
        if s.get_char(i) == target {
            return Some(i);
        }
        i += 1;
    }
    None
}

/// Where each piece of an encoded block line stands.
proof fn lemma_block_json_facts(ft: Seq<char>, c: Seq<char>)
    ensures
        block_json_text(ft, c).len() == 27 + ft.len() as int + c.len() as int,
        block_json_text(ft, c).subrange(0, 14) == bj_pre(),
        forall|j: int| 0 <= j < ft.len() ==> block_json_text(ft, c)[14 + j] == ft[j],
        block_json_text(ft, c)[14 + ft.len() as int] == '"',
        block_json_text(ft, c).subrange(14 + ft.len() as int, 25 + ft.len() as int) == bj_mid(),
        forall|j: int| 0 <= j < c.len() ==> block_json_text(ft, c)[25 + ft.len() as int + j] == c[j],
        block_json_text(ft, c)[25 + ft.len() as int + c.len() as int] == '"',
        block_json_text(ft, c).subrange(
            25 + ft.len() as int + c.len() as int,
            27 + ft.len() as int + c.len() as int,
        ) == bj_suf(),
{
    reveal_strlit("{\"full_text\":\"");
    reveal_strlit("\",\"color\":\"");
    reveal_strlit("\"}");
    let t = block_json_text(ft, c);
    assert(bj_pre().len() == 14);
    assert(bj_mid().len() == 11);
    assert(bj_suf().len() == 2);
    assert(t.subrange(0, 14) =~= bj_pre());
    assert(t.subrange(14 + ft.len() as int, 25 + ft.len() as int) =~= bj_mid());
    assert(t.subrange(25 + ft.len() as int + c.len() as int, 27 + ft.len() as int + c.len() as int) =~= bj_suf());
    assert(t[14 + ft.len() as int] == bj_mid()[0]);
    assert(t[25 + ft.len() as int + c.len() as int] == bj_suf()[0]);
}

/// Decodes one block object, as [`block_json`] writes it.  Returns
/// `Some` exactly on such lines (with quote-free texts), and then the
/// fields are reproduced exactly: the round trip is lossless.
pub fn decode_block(s: &str) -> (r: Option<I3BarBlock>)
    ensures
        match r {
            Some(b) => s@ == block_json_text(b.full_text@, b.color@) && no_quote(b.full_text@)
                && no_quote(b.color@),
            None => true,
        },
        forall|ft: Seq<char>, c: Seq<char>|
            no_quote(ft) && no_quote(c) && s@ == block_json_text(ft, c) ==> match r {
                Some(b) => b.full_text@ == ft && b.color@ == c,
                None => false,
            },
{
    proof {
        reveal_strlit("{\"full_text\":\"");
        reveal_strlit("\",\"color\":\"");
        reveal_strlit("\"}");
        assert(bj_pre().len() == 14);
        assert(bj_mid().len() == 11);
        assert(bj_suf().len() == 2);
    }
    let n = s.unicode_len();
    if n < 27 {
        proof {
            assert forall|ft: Seq<char>, c: Seq<char>|
                no_quote(ft) && no_quote(c) && s@ == block_json_text(ft, c) implies false by {
                lemma_block_json_facts(ft, c);
            }
        }
        return None;
    }
    if !match_at(s, 0, "{\"full_text\":\"") {
        proof {
            assert forall|ft: Seq<char>, c: Seq<char>|
                no_quote(ft) && no_quote(c) && s@ == block_json_text(ft, c) implies false by {
                lemma_block_json_facts(ft, c);
                assert(s@.subrange(0, 14) == bj_pre());
            }
        }
        return None;
    }
    let i = match find_char(s, 14, '"') {
        Some(i) => i,
        None => {
            proof {
                assert forall|ft: Seq<char>, c: Seq<char>|
                    no_quote(ft) && no_quote(c) && s@ == block_json_text(ft, c) implies false by {
                    lemma_block_json_facts(ft, c);
                    assert(s@[14 + ft.len() as int] == '"');
                }
            }
            return None;
        },
    };
    if i > n - 13 {
        proof {
            assert forall|ft: Seq<char>, c: Seq<char>|
                no_quote(ft) && no_quote(c) && s@ == block_json_text(ft, c) implies false by {
                lemma_block_json_facts(ft, c);
                lemma_first_quote(s@, ft, c, i as int);
                assert(n == 27 + ft.len() as int + c.len() as int);
            }
        }
        return None;
    }
    if !match_at(s, i, "\",\"color\":\"") {
        proof {
            assert forall|ft: Seq<char>, c: Seq<char>|
                no_quote(ft) && no_quote(c) && s@ == block_json_text(ft, c) implies false by {
                lemma_block_json_facts(ft, c);
                lemma_first_quote(s@, ft, c, i as int);
                assert(s@.subrange(i as int, i as int + 11) == bj_mid());
            }
        }
        return None;
    }
    let j = match find_char(s, i + 11, '"') {
        Some(j) => j,
        None => {
            proof {
                assert forall|ft: Seq<char>, c: Seq<char>|
                    no_quote(ft) && no_quote(c) && s@ == block_json_text(ft, c) implies false by {
                    lemma_block_json_facts(ft, c);
                    lemma_first_quote(s@, ft, c, i as int);
                    assert(s@[25 + ft.len() as int + c.len() as int] == '"');
                }
            }
            return None;
        },
    };
    if j != n - 2 {
        proof {
            assert forall|ft: Seq<char>, c: Seq<char>|
                no_quote(ft) && no_quote(c) && s@ == block_json_text(ft, c) implies false by {
                lemma_block_json_facts(ft, c);
                lemma_first_quote(s@, ft, c, i as int);
                lemma_second_quote(s@, ft, c, i as int, j as int);
            }
        }
        return None;
    }
    if !match_at(s, j, "\"}") {
        proof {
            assert forall|ft: Seq<char>, c: Seq<char>|
                no_quote(ft) && no_quote(c) && s@ == block_json_text(ft, c) implies false by {
                lemma_block_json_facts(ft, c);
                lemma_first_quote(s@, ft, c, i as int);
                lemma_second_quote(s@, ft, c, i as int, j as int);
                assert(s@.subrange(j as int, j as int + 2) == bj_suf());
            }
        }
        return None;
    }
    let ft_part = s.substring_char(14, i);
    let c_part = s.substring_char(i + 11, j);
    let b = I3BarBlock { full_text: String::from_str(ft_part), color: String::from_str(c_part) };
    proof {
        let ftv = s@.subrange(14, i as int);
        let cv = s@.subrange(i + 11, j as int);
        lemma_block_json_facts(ftv, cv);
        assert(no_quote(ftv));
        assert(no_quote(cv));
        assert forall|k: int| 0 <= k < s@.len() implies s@[k] == block_json_text(ftv, cv)[k] by {
            if k < 14 {
                assert(s@[k] == s@.subrange(0, 14)[k]);
                assert(block_json_text(ftv, cv)[k] == bj_pre()[k]);
            } else if k < i {
                assert(ftv[k - 14] == s@[k]);
            } else if k < i + 11 {
                assert(s@[k] == s@.subrange(i as int, i as int + 11)[k - i]);
                assert(block_json_text(ftv, cv).subrange(
                    14 + ftv.len() as int,
                    25 + ftv.len() as int,
                ) == bj_mid());
                assert(block_json_text(ftv, cv)[k] == bj_mid()[k - i]);
            } else if k < j {
                assert(cv[k - i - 11] == s@[k]);
            } else {
                assert(s@[k] == s@.subrange(j as int, j as int + 2)[k - j]);
                assert(block_json_text(ftv, cv)[k] == bj_suf()[k - j]);
            }
        }
        assert(s@ =~= block_json_text(ftv, cv));
        assert forall|ft: Seq<char>, c: Seq<char>|
            no_quote(ft) && no_quote(c) && s@ == block_json_text(ft, c) implies b.full_text@ == ft
            && b.color@ == c by {
            lemma_block_json_facts(ft, c);
            lemma_first_quote(s@, ft, c, i as int);
            lemma_second_quote(s@, ft, c, i as int, j as int);
            assert(ftv =~= ft);
            assert(cv =~= c);
        }
    }
    Some(b)
}

/// Reads back a canonically rendered decimal number: one or more
/// digits, no leading zero unless the number is zero itself.  Returns
/// `Some(v)` exactly when the region is `dec_digits(v)` for a `u64`.
fn parse_decimal(s: &str, from: usize, to: usize) -> (r: Option<u64>)
    requires
        from <= to <= s@.len(),
        s@.len() <= usize::MAX,
    ensures
        match r {
            Some(v) => s@.subrange(from as int, to as int) == dec_digits(v as nat),
            None => true,
        },
        forall|v: u64|
            s@.subrange(from as int, to as int) == dec_digits(v as nat) ==> r == Some(v),
{
    proof {
        lemma_pow10_20();
    }
    let region = Ghost(s@.subrange(from as int, to as int));
    if to == from {
        proof {
            assert forall|v: u64| region@ == dec_digits(v as nat) implies false by {
                lemma_dec_digits_shape(v as nat);
            }
        }
        return None;
    }
    let len = to - from;
    if len > 20 {
        proof {
            assert forall|v: u64| region@ == dec_digits(v as nat) implies false by {
                lemma_dec_digits_len(v as nat, 20);
            }
        }
        return None;
    }
    if len > 1 && s.get_char(from) == '0' {
        proof {
            assert forall|v: u64| region@ == dec_digits(v as nat) implies false by {
                lemma_dec_digits_shape(v as nat);
                if v == 0 {
                    assert(dec_digits(0).len() == 1);
                } else {
                    lemma_dec_digits_leading(v as nat);
                    assert(region@[0] == s@[from as int]);
                }
            }
        }
        return None;
    }
    let mut acc: u128 = 0;
    let mut i: usize = from;
    while i < to
        invariant
            from <= i <= to <= s@.len() <= usize::MAX,
            to - from <= 20,
            region@ == s@.subrange(from as int, to as int),
            acc == digits_val(s@.subrange(from as int, i as int)),
            acc < pow10((i - from) as nat),
            pow10(20) == 100000000000000000000,
            forall|j: int| from <= j < i ==> is_digit(#[trigger] s@[j]),
        decreases to - i,
    {
        let c = s.get_char(i);
        if !(c == '0' || c == '1' || c == '2' || c == '3' || c == '4' || c == '5' || c == '6'
            || c == '7' || c == '8' || c == '9') {
            proof {
                assert forall|v: u64| region@ == dec_digits(v as nat) implies false by {
                    lemma_dec_digits_shape(v as nat);
                    assert(is_digit(region@[i - from]));
                }
            }
            return None;
        }
        let d: u128 = match c {
            '0' => 0,
            '1' => 1,
            '2' => 2,
            '3' => 3,
            '4' => 4,
            '5' => 5,
            '6' => 6,
            '7' => 7,
            '8' => 8,
            _ => 9,
        };
        proof {
            lemma_pow10_mono((i + 1 - from) as nat, 20);
            let pre = s@.subrange(from as int, i as int);
            let ext = s@.subrange(from as int, i + 1);
            assert(ext.drop_last() =~= pre);
            assert(ext.last() == s@[i as int]);
            assert(digit_val(s@[i as int]) == d);
            assert(pow10((i + 1 - from) as nat) == 10 * pow10((i - from) as nat));
        }
        acc = acc * 10 + d;
        i += 1;
    }
    proof {
        assert(s@.subrange(from as int, i as int) == region@);
    }
    if acc > 0xffff_ffff_ffff_ffffu128 {
        proof {
            assert forall|v: u64| region@ == dec_digits(v as nat) implies false by {
                lemma_dec_digits_val(v as nat);
            }
        }
        return None;
    }
    let v = acc as u64;
    proof {
        assert(all_digits(region@));
        assert(region@.len() > 1 ==> region@[0] != '0');
        lemma_digits_canonical(region@);
        assert(region@ == dec_digits(v as nat));
        assert forall|w: u64| region@ == dec_digits(w as nat) implies w == v by {
            lemma_dec_digits_val(w as nat);
            lemma_dec_digits_val(v as nat);
        }
    }
    Some(v)
}

/// Under the hypothesis that `s` is an encoded block line, the first
/// quote at or after position 14 stands right after the text, so the
/// scan for it lands there.
proof fn lemma_first_quote(s: Seq<char>, ft: Seq<char>, c: Seq<char>, i: int)
    requires
        no_quote(ft),
        s == block_json_text(ft, c),
        14 <= i < s.len(),
        s[i] == '"',
        forall|j: int| 14 <= j < i ==> s[j] != '"',
    ensures
        i == 14 + ft.len() as int,
{
    lemma_block_json_facts(ft, c);
    if i < 14 + ft.len() as int {
        assert(s[i] == ft[i - 14]);
    }
    if i > 14 + ft.len() as int {
        assert(s[14 + ft.len() as int] == '"');
    }
}

/// Likewise for the second scan: the first quote at or after the
/// color's start stands right after the color.
proof fn lemma_second_quote(s: Seq<char>, ft: Seq<char>, c: Seq<char>, i: int, j: int)
    requires
        no_quote(ft),
        no_quote(c),
        s == block_json_text(ft, c),
        i == 14 + ft.len() as int,
        i + 11 <= j < s.len(),
        s[j] == '"',
        forall|k: int| i + 11 <= k < j ==> s[k] != '"',
    ensures
        j == 25 + ft.len() as int + c.len() as int,
        j == s.len() - 2,
{
    lemma_block_json_facts(ft, c);
    if j < 25 + ft.len() as int + c.len() as int {
        assert(s[j] == c[j - 25 - ft.len() as int]);
    }
    if j > 25 + ft.len() as int + c.len() as int {
        assert(s[25 + ft.len() as int + c.len() as int] == '"');
    }
}

/// How `blocks_inner_text` grows by one block at the end.
proof fn lemma_blocks_inner_push(bs: Seq<I3BarBlock>, b: I3BarBlock)
    ensures
        bs.len() == 0 ==> blocks_inner_text(bs.push(b)) == block_json_text(
            b.full_text@,
            b.color@,
        ),
        bs.len() > 0 ==> blocks_inner_text(bs.push(b)) == blocks_inner_text(bs) + seq![',']
            + block_json_text(b.full_text@, b.color@),
{
    let e = bs.push(b);
    assert(e.drop_last() =~= bs);
    assert(e.last() == b);
    if bs.len() == 0 {
        assert(e[0] == b);
    }
}

/// The length of one block's encoded object.
pub open spec fn obj_len(b: I3BarBlock) -> int {
    27 + b.full_text@.len() as int + b.color@.len() as int
}

/// Where object `k` starts within `blocks_inner_text(bs)`.
pub open spec fn inner_start(bs: Seq<I3BarBlock>, k: int) -> int
    decreases k,
{
    if k <= 0 {
        0
    } else {
        inner_start(bs.drop_first(), k - 1) + obj_len(bs[0]) + 1
    }
}

/// Consecutive objects stand one encoded object and a comma apart.
proof fn lemma_inner_start_step(bs: Seq<I3BarBlock>, k: int)
    requires
        0 <= k,
        k + 1 < bs.len(),
    ensures
        inner_start(bs, k + 1) == inner_start(bs, k) + obj_len(bs[k]) + 1,
    decreases k,
{
    if k == 0 {
        assert(inner_start(bs, 1) == inner_start(bs.drop_first(), 0) + obj_len(bs[0]) + 1);
        assert(inner_start(bs.drop_first(), 0) == 0);
        assert(inner_start(bs, 0) == 0);
    } else {
        lemma_inner_start_step(bs.drop_first(), k - 1);
        assert(bs.drop_first()[k - 1] == bs[k]);
        assert(inner_start(bs, k + 1) == inner_start(bs.drop_first(), k) + obj_len(bs[0]) + 1);
        assert(inner_start(bs, k) == inner_start(bs.drop_first(), k - 1) + obj_len(bs[0]) + 1);
    }
}

/// Where object `k` stands within `blocks_inner_text(bs)`: its text,
/// the comma after it (or the end of the inner text after the last).
proof fn lemma_inner_layout(bs: Seq<I3BarBlock>, k: int)
    requires
        0 <= k < bs.len(),
    ensures
        ({
            let t = blocks_inner_text(bs);
            let p = inner_start(bs, k);
            &&& 0 <= p
            &&& p + obj_len(bs[k]) <= t.len()
            &&& t.subrange(p, p + obj_len(bs[k])) == block_json_text(
                bs[k].full_text@,
                bs[k].color@,
            )
            &&& (k < bs.len() - 1 ==> t[p + obj_len(bs[k])] == ',')
            &&& ((k == bs.len() - 1) <==> (p + obj_len(bs[k]) == t.len()))
        }),
    decreases k,
{
    let t = blocks_inner_text(bs);
    let p = inner_start(bs, k);
    lemma_block_json_facts(bs[k].full_text@, bs[k].color@);
    lemma_block_json_facts(bs[0].full_text@, bs[0].color@);
    if k == 0 {
        if bs.len() == 1 {
            assert(t == block_json_text(bs[0].full_text@, bs[0].color@));
            assert(t.subrange(0, obj_len(bs[0])) =~= t);
        } else {
            lemma_inner_front(bs);
            assert(t.subrange(0, obj_len(bs[0])) =~= block_json_text(
                bs[0].full_text@,
                bs[0].color@,
            ));
            assert(t[obj_len(bs[0])] == ',');
            lemma_inner_len(bs.drop_first());
        }
    } else {
        let df = bs.drop_first();
        lemma_inner_front(bs);
        lemma_inner_layout(df, k - 1);
        let shift = obj_len(bs[0]) + 1;
        assert(p == inner_start(df, k - 1) + shift);
        assert(df[k - 1] == bs[k]);
        assert(t.len() == shift + blocks_inner_text(df).len());
        assert forall|j: int| 0 <= j < blocks_inner_text(df).len() implies t[shift + j]
            == blocks_inner_text(df)[j] by {}
        assert(t.subrange(p, p + obj_len(bs[k])) =~= blocks_inner_text(df).subrange(
            inner_start(df, k - 1),
            inner_start(df, k - 1) + obj_len(df[k - 1]),
        ));
    }
}

/// The frame of a tick line around its inner text.
proof fn lemma_tick_frame(s: Seq<char>, v: Seq<I3BarBlock>)
    requires
        s == tick_line_text(v),
    ensures
        s.len() == blocks_inner_text(v).len() + 3,
        s[0] == '[',
        s[s.len() - 2] == ']',
        s[s.len() - 1] == ',',
        forall|j: int| 0 <= j < blocks_inner_text(v).len() ==> s[1 + j] == #[trigger] blocks_inner_text(v)[j],
{
}

/// Where object `k` of an encoded tick line stands within the whole
/// line, with the characters the scanning decoder steps on.
#[verifier::rlimit(100)]
proof fn lemma_tick_obj_facts(s: Seq<char>, v: Seq<I3BarBlock>, k: int)
    requires
        no_quote_blocks(v),
        s == tick_line_text(v),
        0 <= k < v.len(),
    ensures
        ({
            let p = 1 + inner_start(v, k);
            let ft = v[k].full_text@;
            let c = v[k].color@;
            &&& 1 <= p
            &&& p + obj_len(v[k]) <= s.len() - 2
            &&& s.subrange(p, p + obj_len(v[k])) == block_json_text(ft, c)
            &&& (forall|j: int|
                p + 14 <= j < p + 14 + ft.len() ==> #[trigger] s[j] == ft[j - p - 14])
            &&& s[p + 14 + ft.len() as int] == '"'
            &&& (forall|j: int|
                p + 25 + ft.len() <= j < p + 25 + ft.len() + c.len()
                    ==> #[trigger] s[j] == c[j - p - 25 - ft.len()])
            &&& s[p + 25 + ft.len() as int + c.len() as int] == '"'
            &&& (k < v.len() - 1 ==> s[p + obj_len(v[k])] == ',')
            &&& ((k == v.len() - 1) <==> (p + obj_len(v[k]) == s.len() - 2))
        }),
{
    lemma_tick_frame(s, v);
    lemma_inner_layout(v, k);
    let t = blocks_inner_text(v);
    let p = 1 + inner_start(v, k);
    let ft = v[k].full_text@;
    let c = v[k].color@;
    let e = block_json_text(ft, c);
    lemma_block_json_facts(ft, c);
    assert(s.subrange(p, p + obj_len(v[k])) =~= t.subrange(
        inner_start(v, k),
        inner_start(v, k) + obj_len(v[k]),
    ));
    assert forall|j: int| p + 14 <= j < p + 14 + ft.len() implies #[trigger] s[j] == ft[j - p
        - 14] by {
        assert(s[j] == s.subrange(p, p + obj_len(v[k]))[j - p]);
        assert(e[j - p] == ft[j - p - 14]);
    }
    assert(s[p + 14 + ft.len() as int] == e[14 + ft.len() as int]);
    assert forall|j: int| p + 25 + ft.len() <= j < p + 25 + ft.len() + c.len() implies #[trigger] s[j]
        == c[j - p - 25 - ft.len()] by {
        assert(s[j] == s.subrange(p, p + obj_len(v[k]))[j - p]);
        assert(e[j - p] == c[j - p - 25 - ft.len()]);
    }
    assert(s[p + 25 + ft.len() as int + c.len() as int] == e[25 + ft.len() as int + c.len() as int]);
    if k < v.len() - 1 {
        assert(s[p + obj_len(v[k])] == t[inner_start(v, k) + obj_len(v[k])]);
    }
}

/// Under the hypothesis that the line encodes `v`, the scan for the
/// quote closing object `k`'s text lands right after that text.
proof fn lemma_tick_text_quote(s: Seq<char>, v: Seq<I3BarBlock>, k: int, i: int)
    requires
        no_quote_blocks(v),
        s == tick_line_text(v),
        0 <= k < v.len(),
        1 + inner_start(v, k) + 14 <= i < s.len(),
        s[i] == '"',
        forall|j: int| 1 + inner_start(v, k) + 14 <= j < i ==> s[j] != '"',
    ensures
        i == 1 + inner_start(v, k) + 14 + v[k].full_text@.len(),
{
    lemma_tick_obj_facts(s, v, k);
    let p = 1 + inner_start(v, k);
    let ft = v[k].full_text@;
    if i < p + 14 + ft.len() {
        assert(s[i] == ft[i - p - 14]);
    }
    if i > p + 14 + ft.len() {
        assert(s[p + 14 + ft.len() as int] == '"');
    }
}

/// Likewise for the quote closing object `k`'s color.
proof fn lemma_tick_color_quote(s: Seq<char>, v: Seq<I3BarBlock>, k: int, j: int)
    requires
        no_quote_blocks(v),
        s == tick_line_text(v),
        0 <= k < v.len(),
        1 + inner_start(v, k) + 25 + v[k].full_text@.len() <= j < s.len(),
        s[j] == '"',
        forall|j2: int| 1 + inner_start(v, k) + 25 + v[k].full_text@.len() <= j2 < j ==> s[j2]
            != '"',
    ensures
        j == 1 + inner_start(v, k) + 25 + v[k].full_text@.len() + v[k].color@.len(),
{
    lemma_tick_obj_facts(s, v, k);
    let p = 1 + inner_start(v, k);
    let ft = v[k].full_text@;
    let c = v[k].color@;
    if j < p + 25 + ft.len() + c.len() {
        assert(s[j] == c[j - p - 25 - ft.len()]);
    }
    if j > p + 25 + ft.len() + c.len() {
        assert(s[p + 25 + ft.len() as int + c.len() as int] == '"');
    }
}

/// Under the hypothesis that the line encodes `v`, the two quote
/// scans together delimit object `k` exactly, and a line that goes on
/// past it continues with a comma and object `k + 1`.
proof fn lemma_tick_step(s: Seq<char>, v: Seq<I3BarBlock>, k: int, i: int, j: int)
    requires
        no_quote_blocks(v),
        s == tick_line_text(v),
        0 <= k < v.len(),
        1 + inner_start(v, k) + 14 <= i < s.len(),
        s[i] == '"',
        forall|j2: int| 1 + inner_start(v, k) + 14 <= j2 < i ==> s[j2] != '"',
        i + 11 <= j < s.len(),
        s[j] == '"',
        forall|j2: int| i + 11 <= j2 < j ==> s[j2] != '"',
    ensures
        j + 2 == 1 + inner_start(v, k) + obj_len(v[k]),
        s.subrange(1 + inner_start(v, k), j + 2) == block_json_text(
            v[k].full_text@,
            v[k].color@,
        ),
        j + 2 <= s.len() - 2,
        (k == v.len() - 1) <==> (j + 2 == s.len() - 2),
        k < v.len() - 1 ==> s[j + 2] == ',' && 1 + inner_start(v, k + 1) == j + 3 && 1
            + inner_start(v, k + 1) + obj_len(v[k + 1]) <= s.len() - 2,
{
    lemma_tick_obj_facts(s, v, k);
    lemma_tick_text_quote(s, v, k, i);
    lemma_tick_color_quote(s, v, k, j);
    if k < v.len() - 1 {
        lemma_inner_start_step(v, k);
        lemma_tick_obj_facts(s, v, k + 1);
    }
}

/// Decodes one emitted tick line: a JSON array of block objects
/// followed by the protocol's trailing comma, as [`tick_line`] writes
/// it.  Accepts exactly the encodings of quote-free payloads, and
/// reproduces the fields exactly: the round trip is lossless.
#[verifier::rlimit(100)]
pub fn decode_tick(s: &str) -> (r: Option<Vec<I3BarBlock>>)
    ensures
        match r {
            Some(v) => s@ == tick_line_text(v@) && no_quote_blocks(v@),
            None => true,
        },
        forall|v: Seq<I3BarBlock>|
            no_quote_blocks(v) && s@ == tick_line_text(v) ==> match r {
                Some(u) => blocks_match(u@, v),
                None => false,
            },
{
    let n = s.unicode_len();
    if n < 3 {
        proof {
            assert forall|v: Seq<I3BarBlock>|
                no_quote_blocks(v) && s@ == tick_line_text(v) implies false by {
                lemma_tick_frame(s@, v);
            }
        }
        return None;
    }
    if s.get_char(0) != '[' || s.get_char(n - 1) != ',' || s.get_char(n - 2) != ']' {
        proof {
            assert forall|v: Seq<I3BarBlock>|
                no_quote_blocks(v) && s@ == tick_line_text(v) implies false by {
                lemma_tick_frame(s@, v);
            }
        }
        return None;
    }
    let mut out: Vec<I3BarBlock> = Vec::new();
    if n == 3 {
        proof {
            assert(out@.len() == 0);
            assert(s@ =~= tick_line_text(out@));
            assert forall|v: Seq<I3BarBlock>|
                no_quote_blocks(v) && s@ == tick_line_text(v) implies blocks_match(out@, v) by {
                lemma_tick_frame(s@, v);
                if v.len() >= 1 {
                    lemma_inner_len(v);
                }
            }
        }
        return Some(out);
    }
    let mut pos: usize = 1;
    proof {
        assert forall|v: Seq<I3BarBlock>|
            no_quote_blocks(v) && s@ == tick_line_text(v) implies 0 < v.len() && 1
            == 1 + inner_start(v, 0) by {
            lemma_tick_frame(s@, v);
            if v.len() == 0 {
                assert(blocks_inner_text(v).len() == 0);
            }
        }
    }
    while pos < n
        invariant
            1 <= pos <= n,
            n == s@.len() <= usize::MAX,
            n >= 4,
            s@[0] == '[',
            s@[n - 1] == ',',
            s@[n - 2] == ']',
            out@.len() == 0 ==> pos == 1,
            out@.len() > 0 ==> s@.subrange(0, pos as int) == seq!['['] + blocks_inner_text(out@)
                + seq![','],
            no_quote_blocks(out@),
            forall|v: Seq<I3BarBlock>|
                no_quote_blocks(v) && s@ == tick_line_text(v) ==> out@.len() < v.len() && pos
                    == 1 + inner_start(v, out@.len() as int),
        decreases n - pos,
    {
        let ghost k = out@.len() as int;
        if n < 14 || pos > n - 14 {
            proof {
                assert forall|v: Seq<I3BarBlock>|
                    no_quote_blocks(v) && s@ == tick_line_text(v) implies false by {
                    lemma_tick_obj_facts(s@, v, k);
                }
            }
            return None;
        }
        let i = match find_char(s, pos + 14, '"') {
            Some(i) => i,
            None => {
                proof {
                    assert forall|v: Seq<I3BarBlock>|
                        no_quote_blocks(v) && s@ == tick_line_text(v) implies false by {
                        lemma_tick_obj_facts(s@, v, k);
                    }
                }
                return None;
            },
        };
        if i > n - 11 {
            proof {
                assert forall|v: Seq<I3BarBlock>|
                    no_quote_blocks(v) && s@ == tick_line_text(v) implies false by {
                    lemma_tick_obj_facts(s@, v, k);
                    lemma_tick_text_quote(s@, v, k, i as int);
                }
            }
            return None;
        }
        let j = match find_char(s, i + 11, '"') {
            Some(j) => j,
            None => {
                proof {
                    assert forall|v: Seq<I3BarBlock>|
                        no_quote_blocks(v) && s@ == tick_line_text(v) implies false by {
                        lemma_tick_obj_facts(s@, v, k);
                        lemma_tick_text_quote(s@, v, k, i as int);
                    }
                }
                return None;
            },
        };
        if j > n - 2 {
            proof {
                assert forall|v: Seq<I3BarBlock>|
                    no_quote_blocks(v) && s@ == tick_line_text(v) implies false by {
                    lemma_tick_obj_facts(s@, v, k);
                    lemma_tick_text_quote(s@, v, k, i as int);
                    lemma_tick_color_quote(s@, v, k, j as int);
                }
            }
            return None;
        }
        let end = j + 2;
        let piece = s.substring_char(pos, end);
        let b = match decode_block(piece) {
            Some(b) => b,
            None => {
                proof {
                    assert forall|v: Seq<I3BarBlock>|
                        no_quote_blocks(v) && s@ == tick_line_text(v) implies false by {
                        lemma_tick_step(s@, v, k, i as int, j as int);
                        assert(piece@ == block_json_text(v[k].full_text@, v[k].color@));
                    }
                }
                return None;
            },
        };
        let ghost old_out = out@;
        out.push(b);
        proof {
            lemma_blocks_inner_push(old_out, b);
            assert(piece@ == block_json_text(b.full_text@, b.color@));
            if old_out.len() == 0 {
                assert(s@.subrange(0, end as int) =~= seq!['['] + blocks_inner_text(out@));
            } else {
                assert(s@.subrange(0, end as int) =~= seq!['['] + blocks_inner_text(out@));
            }
            assert forall|kk: int| 0 <= kk < out@.len() implies no_quote(
                (#[trigger] out@[kk]).full_text@,
            ) && no_quote(out@[kk].color@) by {
                if kk < old_out.len() {
                    assert(out@[kk] == old_out[kk]);
                } else {
                    assert(out@[kk] == b);
                }
            }
        }
        if end == n - 2 {
            proof {
                assert(s@ =~= seq!['['] + blocks_inner_text(out@) + seq![']'] + seq![',']);
                assert(s@ == tick_line_text(out@));
                assert forall|v: Seq<I3BarBlock>|
                    no_quote_blocks(v) && s@ == tick_line_text(v) implies blocks_match(
                    out@,
                    v,
                ) by {
                    lemma_tick_line_injective(out@, v);
                }
            }
            return Some(out);
        }
        if s.get_char(end) != ',' {
            proof {
                assert forall|v: Seq<I3BarBlock>|
                    no_quote_blocks(v) && s@ == tick_line_text(v) implies false by {
                    lemma_tick_step(s@, v, k, i as int, j as int);
                }
            }
            return None;
        }
        if end + 1 >= n - 1 {
            proof {
                assert forall|v: Seq<I3BarBlock>|
                    no_quote_blocks(v) && s@ == tick_line_text(v) implies false by {
                    lemma_tick_step(s@, v, k, i as int, j as int);
                }
            }
            return None;
        }
        pos = end + 1;
        proof {
            assert(s@.subrange(0, pos as int) =~= seq!['['] + blocks_inner_text(out@)
                + seq![',']);
            assert forall|v: Seq<I3BarBlock>|
                no_quote_blocks(v) && s@ == tick_line_text(v) implies out@.len() < v.len()
                && pos == 1 + inner_start(v, out@.len() as int) by {
                lemma_tick_step(s@, v, k, i as int, j as int);
            }
        }
    }
    proof {
        assert forall|v: Seq<I3BarBlock>|
            no_quote_blocks(v) && s@ == tick_line_text(v) implies false by {
            lemma_tick_obj_facts(s@, v, out@.len() as int);
        }
    }
    None
}

/// No embedded string of any block holds a double quote; what the
/// probes emit always satisfies this (their texts are `wf_text`).
pub open spec fn no_quote_blocks(bs: Seq<I3BarBlock>) -> bool {
    forall|k: int|
        0 <= k < bs.len() ==> no_quote((#[trigger] bs[k]).full_text@) && no_quote(bs[k].color@)
}

/// Field-wise equality of two block sequences.
pub open spec fn blocks_match(a: Seq<I3BarBlock>, b: Seq<I3BarBlock>) -> bool {
    a.len() == b.len() && forall|k: int|
        0 <= k < a.len() ==> (#[trigger] a[k]).full_text@ == b[k].full_text@ && a[k].color@
            == b[k].color@
}

/// A nonempty tick payload encodes to at least one object's worth of
/// text.
proof fn lemma_inner_len(bs: Seq<I3BarBlock>)
    ensures
        bs.len() >= 1 ==> blocks_inner_text(bs).len() >= 27,
    decreases bs.len(),
{
    if bs.len() == 1 {
        lemma_block_json_facts(bs[0].full_text@, bs[0].color@);
    } else if bs.len() >= 2 {
        lemma_inner_len(bs.drop_last());
        lemma_block_json_facts(bs.last().full_text@, bs.last().color@);
    }
}

/// `blocks_inner_text` peeled from the front instead of the back.
proof fn lemma_inner_front(bs: Seq<I3BarBlock>)
    requires
        bs.len() >= 2,
    ensures
        blocks_inner_text(bs) == block_json_text(bs[0].full_text@, bs[0].color@) + seq![',']
            + blocks_inner_text(bs.drop_first()),
    decreases bs.len(),
{
    let e0 = block_json_text(bs[0].full_text@, bs[0].color@);
    let dl = bs.drop_last();
    let df = bs.drop_first();
    if bs.len() == 2 {
        assert(dl =~= seq![bs[0]]);
        assert(df =~= seq![bs[1]]);
        assert(blocks_inner_text(dl) == e0);
        assert(blocks_inner_text(df) == block_json_text(bs[1].full_text@, bs[1].color@));
        assert(bs.last() == bs[1]);
        assert(blocks_inner_text(bs) =~= e0 + seq![','] + blocks_inner_text(df));
    } else {
        lemma_inner_front(dl);
        assert(dl[0] == bs[0]);
        assert(dl.drop_first() =~= df.drop_last());
        assert(df.last() == bs.last());
        assert(df.len() >= 2);
        assert(blocks_inner_text(df) == blocks_inner_text(df.drop_last()) + seq![',']
            + block_json_text(df.last().full_text@, df.last().color@));
        assert(blocks_inner_text(bs) =~= e0 + seq![','] + blocks_inner_text(df));
    }
}

/// Two quote-free tick payloads with the same inner text carry the
/// same fields.
proof fn lemma_inner_injective(a: Seq<I3BarBlock>, b: Seq<I3BarBlock>)
    requires
        no_quote_blocks(a),
        no_quote_blocks(b),
        blocks_inner_text(a) == blocks_inner_text(b),
    ensures
        blocks_match(a, b),
    decreases a.len(),
{
    let t = blocks_inner_text(a);
    if a.len() == 0 {
        if b.len() >= 1 {
            lemma_inner_len(b);
        }
    } else if b.len() == 0 {
        lemma_inner_len(a);
    } else {
        let fa = a[0].full_text@;
        let ca = a[0].color@;
        let fb = b[0].full_text@;
        let cb = b[0].color@;
        lemma_block_json_facts(fa, ca);
        lemma_block_json_facts(fb, cb);
        let ea = block_json_text(fa, ca);
        let eb = block_json_text(fb, cb);
        if a.len() >= 2 {
            lemma_inner_front(a);
        }
        if b.len() >= 2 {
            lemma_inner_front(b);
        }
        // Both decompositions start with the head object, so the text
        // up to each head's length agrees with that head.
        assert(ea.len() <= t.len());
        assert(eb.len() <= t.len());
        assert(forall|j: int| 0 <= j < ea.len() ==> t[j] == ea[j]);
        assert(forall|j: int| 0 <= j < eb.len() ==> t[j] == eb[j]);
        // The first quote after the fixed prefix bounds both texts.
        assert(t[14 + fa.len() as int] == '"');
        assert(t[14 + fb.len() as int] == '"');
        if fa.len() < fb.len() {
            assert(t[14 + fa.len() as int] == fb[fa.len() as int]);
        }
        if fb.len() < fa.len() {
            assert(t[14 + fb.len() as int] == fa[fb.len() as int]);
        }
        assert(fa.len() == fb.len());
        assert(fa =~= fb);
        // Likewise the quote closing the color.
        assert(t[25 + fa.len() as int + ca.len() as int] == '"');
        assert(t[25 + fb.len() as int + cb.len() as int] == '"');
        if ca.len() < cb.len() {
            assert(t[25 + fa.len() as int + ca.len() as int] == cb[ca.len() as int]);
        }
        if cb.len() < ca.len() {
            assert(t[25 + fb.len() as int + cb.len() as int] == ca[cb.len() as int]);
        }
        assert(ca.len() == cb.len());
        assert(ca =~= cb);
        assert(ea.len() == eb.len());
        if a.len() == 1 {
            assert(t.len() == ea.len());
            if b.len() >= 2 {
                lemma_inner_len(b.drop_first());
                assert(t.len() >= eb.len() + 1 + 27);
                assert(false);
            }
        } else {
            if b.len() == 1 {
                lemma_inner_len(a.drop_first());
                assert(t.len() >= ea.len() + 1 + 27);
                assert(false);
            }
            assert(blocks_inner_text(a.drop_first()) =~= t.subrange(
                ea.len() as int + 1,
                t.len() as int,
            ));
            assert(blocks_inner_text(b.drop_first()) =~= t.subrange(
                eb.len() as int + 1,
                t.len() as int,
            ));
            assert(forall|k: int|
                0 <= k < a.drop_first().len() ==> a.drop_first()[k] == a[k + 1]);
            assert(forall|k: int|
                0 <= k < b.drop_first().len() ==> b.drop_first()[k] == b[k + 1]);
            lemma_inner_injective(a.drop_first(), b.drop_first());
            assert forall|k: int|
                0 <= k < a.len() implies (#[trigger] a[k]).full_text@ == b[k].full_text@
                && a[k].color@ == b[k].color@ by {
                if k >= 1 {
                    assert(a.drop_first()[k - 1] == a[k]);
                    assert(b.drop_first()[k - 1] == b[k]);
                }
            }
        }
    }
}

/// Two quote-free tick payloads that frame to the same emitted line
/// carry the same fields: a tick line determines its blocks, so the
/// round trip through [`decode_tick`] is lossless.
pub proof fn lemma_tick_line_injective(a: Seq<I3BarBlock>, b: Seq<I3BarBlock>)
    requires
        no_quote_blocks(a),
        no_quote_blocks(b),
        tick_line_text(a) == tick_line_text(b),
    ensures
        blocks_match(a, b),
{
    let ta = tick_line_text(a);
    assert(blocks_inner_text(a) =~= ta.subrange(1, ta.len() - 2));
    assert(blocks_inner_text(b) =~= ta.subrange(1, ta.len() - 2));
    lemma_inner_injective(a, b);
}

/// The tail of a header line: the boolean and the closing brace.
pub open spec fn click_tail(b: bool) -> Seq<char> {
    (if b {
        "true"@
    } else {
        "false"@
    }) + "}"@
}

/// Where each piece of an encoded header line stands.
#[verifier::rlimit(30)]
proof fn lemma_header_json_facts(h: I3BarHeader)
    ensures
        ({
            let t = header_json_text(h);
            let l1 = dec_digits(h.version as nat).len() as int;
            let l2 = dec_digits(h.stop_signal as nat).len() as int;
            let l3 = dec_digits(h.cont_signal as nat).len() as int;
            &&& t.len() == 57 + l1 + l2 + l3 + click_tail(h.click_events).len()
            &&& t.len() >= 65
            &&& t.subrange(0, 11) == "{\"version\":"@
            &&& t.subrange(11, 11 + l1) == dec_digits(h.version as nat)
            &&& t.subrange(11 + l1, 26 + l1) == ",\"stop_signal\":"@
            &&& t.subrange(26 + l1, 26 + l1 + l2) == dec_digits(h.stop_signal as nat)
            &&& t.subrange(26 + l1 + l2, 41 + l1 + l2) == ",\"cont_signal\":"@
            &&& t.subrange(41 + l1 + l2, 41 + l1 + l2 + l3) == dec_digits(h.cont_signal as nat)
            &&& t.subrange(41 + l1 + l2 + l3, 57 + l1 + l2 + l3) == ",\"click_events\":"@
            &&& t.subrange(57 + l1 + l2 + l3, t.len() as int) == click_tail(h.click_events)
            &&& (forall|j: int| 11 <= j < 11 + l1 ==> #[trigger] t[j] != ',')
            &&& t[11 + l1] == ','
            &&& (forall|j: int| 26 + l1 <= j < 26 + l1 + l2 ==> #[trigger] t[j] != ',')
            &&& t[26 + l1 + l2] == ','
            &&& (forall|j: int| 41 + l1 + l2 <= j < 41 + l1 + l2 + l3 ==> #[trigger] t[j] != ',')
            &&& t[41 + l1 + l2 + l3] == ','
        }),
{
    reveal_strlit("{\"version\":");
    reveal_strlit(",\"stop_signal\":");
    reveal_strlit(",\"cont_signal\":");
    reveal_strlit(",\"click_events\":");
    reveal_strlit("true");
    reveal_strlit("false");
    reveal_strlit("}");
    let t = header_json_text(h);
    let d1 = dec_digits(h.version as nat);
    let d2 = dec_digits(h.stop_signal as nat);
    let d3 = dec_digits(h.cont_signal as nat);
    let l1 = d1.len() as int;
    let l2 = d2.len() as int;
    let l3 = d3.len() as int;
    lemma_dec_digits_shape(h.version as nat);
    lemma_dec_digits_shape(h.stop_signal as nat);
    lemma_dec_digits_shape(h.cont_signal as nat);
    assert(t.subrange(0, 11) =~= "{\"version\":"@);
    assert(t.subrange(11, 11 + l1) =~= d1);
    assert(t.subrange(11 + l1, 26 + l1) =~= ",\"stop_signal\":"@);
    assert(t.subrange(26 + l1, 26 + l1 + l2) =~= d2);
    assert(t.subrange(26 + l1 + l2, 41 + l1 + l2) =~= ",\"cont_signal\":"@);
    assert(t.subrange(41 + l1 + l2, 41 + l1 + l2 + l3) =~= d3);
    assert(t.subrange(41 + l1 + l2 + l3, 57 + l1 + l2 + l3) =~= ",\"click_events\":"@);
    assert(t.subrange(57 + l1 + l2 + l3, t.len() as int) =~= click_tail(h.click_events));
    assert forall|j: int| 11 <= j < 11 + l1 implies #[trigger] t[j] != ',' by {
        assert(t[j] == d1[j - 11]);
        assert(is_digit(d1[j - 11]));
    }
    assert(t[11 + l1] == ",\"stop_signal\":"@[0]);
    assert forall|j: int| 26 + l1 <= j < 26 + l1 + l2 implies #[trigger] t[j] != ',' by {
        assert(t[j] == d2[j - 26 - l1]);
        assert(is_digit(d2[j - 26 - l1]));
    }
    assert(t[26 + l1 + l2] == ",\"cont_signal\":"@[0]);
    assert forall|j: int| 41 + l1 + l2 <= j < 41 + l1 + l2 + l3 implies #[trigger] t[j] != ','
        by {
        assert(t[j] == d3[j - 41 - l1 - l2]);
        assert(is_digit(d3[j - 41 - l1 - l2]));
    }
    assert(t[41 + l1 + l2 + l3] == ",\"click_events\":"@[0]);
}

/// A scan for the first comma lands exactly where a comma follows a
/// comma-free region.
proof fn lemma_comma_scan(t: Seq<char>, start: int, dlen: int, c: int)
    requires
        0 <= start,
        0 <= dlen,
        start + dlen < t.len(),
        forall|j: int| start <= j < start + dlen ==> #[trigger] t[j] != ',',
        t[start + dlen] == ',',
        start <= c < t.len(),
        t[c] == ',',
        forall|j: int| start <= j < c ==> #[trigger] t[j] != ',',
    ensures
        c == start + dlen,
{
}

/// A parsed-out header line re-encodes to itself: the pieces the
/// decoder established pin the whole string.
#[verifier::rlimit(100)]
proof fn lemma_header_decode_sound(
    s: Seq<char>,
    c1: int,
    c2: int,
    c3: int,
    v1: u64,
    v2: u64,
    v3: u64,
    click: bool,
    h: I3BarHeader,
)
    requires
        11 <= c1,
        c1 + 15 <= c2,
        c2 + 15 <= c3,
        c3 + 16 <= s.len(),
        s.subrange(0, 11) == "{\"version\":"@,
        s.subrange(11, c1) == dec_digits(v1 as nat),
        s.subrange(c1, c1 + 15) == ",\"stop_signal\":"@,
        s.subrange(c1 + 15, c2) == dec_digits(v2 as nat),
        s.subrange(c2, c2 + 15) == ",\"cont_signal\":"@,
        s.subrange(c2 + 15, c3) == dec_digits(v3 as nat),
        s.subrange(c3, c3 + 16) == ",\"click_events\":"@,
        s.subrange(c3 + 16, s.len() as int) == click_tail(click),
        click ==> c3 + 16 + 5 == s.len(),
        !click ==> c3 + 16 + 6 == s.len(),
        v1 <= usize::MAX && h.version == v1 as usize,
        v2 <= usize::MAX && h.stop_signal == v2 as usize,
        v3 <= usize::MAX && h.cont_signal == v3 as usize,
        h.click_events == click,
    ensures
        s == header_json_text(h),
{
    reveal_strlit("true");
    reveal_strlit("false");
    reveal_strlit("}");
    let t = header_json_text(h);
    lemma_header_json_facts(h);
    let l1 = dec_digits(h.version as nat).len() as int;
    let l2 = dec_digits(h.stop_signal as nat).len() as int;
    let l3 = dec_digits(h.cont_signal as nat).len() as int;
    assert(dec_digits(h.version as nat) == dec_digits(v1 as nat));
    assert(dec_digits(h.stop_signal as nat) == dec_digits(v2 as nat));
    assert(dec_digits(h.cont_signal as nat) == dec_digits(v3 as nat));
    assert(c1 == 11 + l1);
    assert(c2 == 26 + l1 + l2);
    assert(c3 == 41 + l1 + l2 + l3);
    if click {
        assert(click_tail(click).len() == 5);
    } else {
        assert(click_tail(click).len() == 6);
    }
    assert(t.len() == s.len());
    let q = c3 + 16;
    assert forall|k: int| 0 <= k < s.len() implies s[k] == t[k] by {
        if k < 11 {
            assert(s[k] == s.subrange(0, 11)[k]);
            assert(t[k] == t.subrange(0, 11)[k]);
        } else if k < c1 {
            assert(s[k] == s.subrange(11, c1)[k - 11]);
            assert(t[k] == t.subrange(11, 11 + l1)[k - 11]);
        } else if k < c1 + 15 {
            assert(s[k] == s.subrange(c1, c1 + 15)[k - c1]);
            assert(t[k] == t.subrange(11 + l1, 26 + l1)[k - c1]);
        } else if k < c2 {
            assert(s[k] == s.subrange(c1 + 15, c2)[k - c1 - 15]);
            assert(t[k] == t.subrange(26 + l1, 26 + l1 + l2)[k - c1 - 15]);
        } else if k < c2 + 15 {
            assert(s[k] == s.subrange(c2, c2 + 15)[k - c2]);
            assert(t[k] == t.subrange(26 + l1 + l2, 41 + l1 + l2)[k - c2]);
        } else if k < c3 {
            assert(s[k] == s.subrange(c2 + 15, c3)[k - c2 - 15]);
            assert(t[k] == t.subrange(41 + l1 + l2, 41 + l1 + l2 + l3)[k - c2 - 15]);
        } else if k < c3 + 16 {
            assert(s[k] == s.subrange(c3, c3 + 16)[k - c3]);
            assert(t[k] == t.subrange(41 + l1 + l2 + l3, 57 + l1 + l2 + l3)[k - c3]);
        } else {
            assert(s[k] == s.subrange(q, s.len() as int)[k - q]);
            assert(t[k] == t.subrange(57 + l1 + l2 + l3, t.len() as int)[k - q]);
        }
    }
    assert(s =~= t);
}

/// Two headers that encode to the same line are the same header.
#[verifier::rlimit(100)]
proof fn lemma_header_json_injective(h: I3BarHeader, h2: I3BarHeader)
    requires
        header_json_text(h) == header_json_text(h2),
    ensures
        h == h2,
{
    let s = header_json_text(h);
    lemma_header_json_facts(h);
    lemma_header_json_facts(h2);
    let l1 = dec_digits(h.version as nat).len() as int;
    let l2 = dec_digits(h.stop_signal as nat).len() as int;
    let l3 = dec_digits(h.cont_signal as nat).len() as int;
    let m1 = dec_digits(h2.version as nat).len() as int;
    let m2 = dec_digits(h2.stop_signal as nat).len() as int;
    let m3 = dec_digits(h2.cont_signal as nat).len() as int;
    lemma_dec_digits_shape(h.version as nat);
    lemma_dec_digits_shape(h2.version as nat);
    if l1 < m1 {
        assert(s[11 + l1] == ',');
    }
    if m1 < l1 {
        assert(s[11 + m1] == ',');
        assert(s[11 + m1] == dec_digits(h.version as nat)[m1]);
    }
    assert(l1 == m1);
    assert(s.subrange(11, 11 + l1) == dec_digits(h.version as nat));
    assert(s.subrange(11, 11 + l1) == dec_digits(h2.version as nat));
    lemma_dec_digits_val(h.version as nat);
    lemma_dec_digits_val(h2.version as nat);
    assert(h.version == h2.version);
    lemma_dec_digits_shape(h.stop_signal as nat);
    lemma_dec_digits_shape(h2.stop_signal as nat);
    if l2 < m2 {
        assert(s[26 + l1 + l2] == ',');
        assert(s[26 + l1 + l2] == dec_digits(h2.stop_signal as nat)[l2]);
    }
    if m2 < l2 {
        assert(s[26 + l1 + m2] == ',');
        assert(s[26 + l1 + m2] == dec_digits(h.stop_signal as nat)[m2]);
    }
    assert(l2 == m2);
    assert(s.subrange(26 + l1, 26 + l1 + l2) == dec_digits(h.stop_signal as nat));
    assert(s.subrange(26 + l1, 26 + l1 + l2) == dec_digits(h2.stop_signal as nat));
    lemma_dec_digits_val(h.stop_signal as nat);
    lemma_dec_digits_val(h2.stop_signal as nat);
    assert(h.stop_signal == h2.stop_signal);
    lemma_dec_digits_shape(h.cont_signal as nat);
    lemma_dec_digits_shape(h2.cont_signal as nat);
    if l3 < m3 {
        assert(s[41 + l1 + l2 + l3] == ',');
        assert(s[41 + l1 + l2 + l3] == dec_digits(h2.cont_signal as nat)[l3]);
    }
    if m3 < l3 {
        assert(s[41 + l1 + l2 + m3] == ',');
        assert(s[41 + l1 + l2 + m3] == dec_digits(h.cont_signal as nat)[m3]);
    }
    assert(l3 == m3);
    assert(s.subrange(41 + l1 + l2, 41 + l1 + l2 + l3) == dec_digits(h.cont_signal as nat));
    assert(s.subrange(41 + l1 + l2, 41 + l1 + l2 + l3) == dec_digits(h2.cont_signal as nat));
    lemma_dec_digits_val(h.cont_signal as nat);
    lemma_dec_digits_val(h2.cont_signal as nat);
    assert(h.cont_signal == h2.cont_signal);
    reveal_strlit("true");
    reveal_strlit("false");
    if h.click_events != h2.click_events {
        assert(click_tail(h.click_events).len() != click_tail(h2.click_events).len());
        assert(s.len() == 57 + l1 + l2 + l3 + click_tail(h.click_events).len());
    }
    assert(h.click_events == h2.click_events);
}

/// Decodes a header line's object, as [`header_json`] writes it.
/// Returns `Some` exactly on such objects, reproducing the fields
/// exactly: the round trip is lossless.
#[verifier::rlimit(100)]
pub fn decode_header(s: &str) -> (r: Option<I3BarHeader>)
    ensures
        match r {
            Some(h) => s@ == header_json_text(h),
            None => true,
        },
        forall|h: I3BarHeader| s@ == header_json_text(h) ==> r == Some(h),
{
    proof {
        reveal_strlit("{\"version\":");
        reveal_strlit(",\"stop_signal\":");
        reveal_strlit(",\"cont_signal\":");
        reveal_strlit(",\"click_events\":");
        reveal_strlit("true}");
        reveal_strlit("false}");
        reveal_strlit("true");
        reveal_strlit("false");
        reveal_strlit("}");
        assert(("{\"version\":"@).len() == 11);
        assert((",\"stop_signal\":"@).len() == 15);
        assert((",\"cont_signal\":"@).len() == 15);
        assert((",\"click_events\":"@).len() == 16);
        assert(("true}"@).len() == 5);
        assert(("false}"@).len() == 6);
        assert(("true}"@) =~= click_tail(true));
        assert(("false}"@) =~= click_tail(false));
    }
    let n = s.unicode_len();
    if n < 65 {
        proof {
            assert forall|h: I3BarHeader| s@ == header_json_text(h) implies false by {
                lemma_header_json_facts(h);
            }
        }
        return None;
    }
    if !match_at(s, 0, "{\"version\":") {
        proof {
            assert forall|h: I3BarHeader| s@ == header_json_text(h) implies false by {
                lemma_header_json_facts(h);
            }
        }
        return None;
    }
    let c1 = match find_char(s, 11, ',') {
        Some(c) => c,
        None => {
            proof {
                assert forall|h: I3BarHeader| s@ == header_json_text(h) implies false by {
                    lemma_header_json_facts(h);
                }
            }
            return None;
        },
    };
    let v1 = match parse_decimal(s, 11, c1) {
        Some(v) => v,
        None => {
            proof {
                assert forall|h: I3BarHeader| s@ == header_json_text(h) implies false by {
                    lemma_header_json_facts(h);
                    let l1 = dec_digits(h.version as nat).len() as int;
                    lemma_comma_scan(s@, 11, l1, c1 as int);
                    assert(usize::MAX <= u64::MAX);
                    assert(s@.subrange(11, c1 as int) == dec_digits(
                        (h.version as u64) as nat,
                    ));
                }
            }
            return None;
        },
    };
    if c1 > n - 15 {
        proof {
            assert forall|h: I3BarHeader| s@ == header_json_text(h) implies false by {
                lemma_header_json_facts(h);
                lemma_comma_scan(s@, 11, dec_digits(h.version as nat).len() as int, c1 as int);
            }
        }
        return None;
    }
    if !match_at(s, c1, ",\"stop_signal\":") {
        proof {
            assert forall|h: I3BarHeader| s@ == header_json_text(h) implies false by {
                lemma_header_json_facts(h);
                lemma_comma_scan(s@, 11, dec_digits(h.version as nat).len() as int, c1 as int);
            }
        }
        return None;
    }
    let c2 = match find_char(s, c1 + 15, ',') {
        Some(c) => c,
        None => {
            proof {
                assert forall|h: I3BarHeader| s@ == header_json_text(h) implies false by {
                    lemma_header_json_facts(h);
                    lemma_comma_scan(
                        s@,
                        11,
                        dec_digits(h.version as nat).len() as int,
                        c1 as int,
                    );
                }
            }
            return None;
        },
    };
    let v2 = match parse_decimal(s, c1 + 15, c2) {
        Some(v) => v,
        None => {
            proof {
                assert forall|h: I3BarHeader| s@ == header_json_text(h) implies false by {
                    lemma_header_json_facts(h);
                    let l1 = dec_digits(h.version as nat).len() as int;
                    let l2 = dec_digits(h.stop_signal as nat).len() as int;
                    lemma_comma_scan(s@, 11, l1, c1 as int);
                    lemma_comma_scan(s@, c1 + 15, l2, c2 as int);
                    assert(usize::MAX <= u64::MAX);
                    assert(s@.subrange(c1 + 15, c2 as int) == dec_digits(
                        (h.stop_signal as u64) as nat,
                    ));
                }
            }
            return None;
        },
    };
    if c2 > n - 15 {
        proof {
            assert forall|h: I3BarHeader| s@ == header_json_text(h) implies false by {
                lemma_header_json_facts(h);
                let l1 = dec_digits(h.version as nat).len() as int;
                let l2 = dec_digits(h.stop_signal as nat).len() as int;
                lemma_comma_scan(s@, 11, l1, c1 as int);
                lemma_comma_scan(s@, c1 + 15, l2, c2 as int);
            }
        }
        return None;
    }
    if !match_at(s, c2, ",\"cont_signal\":") {
        proof {
            assert forall|h: I3BarHeader| s@ == header_json_text(h) implies false by {
                lemma_header_json_facts(h);
                let l1 = dec_digits(h.version as nat).len() as int;
                let l2 = dec_digits(h.stop_signal as nat).len() as int;
                lemma_comma_scan(s@, 11, l1, c1 as int);
                lemma_comma_scan(s@, c1 + 15, l2, c2 as int);
            }
        }
        return None;
    }
    let c3 = match find_char(s, c2 + 15, ',') {
        Some(c) => c,
        None => {
            proof {
                assert forall|h: I3BarHeader| s@ == header_json_text(h) implies false by {
                    lemma_header_json_facts(h);
                    let l1 = dec_digits(h.version as nat).len() as int;
                    let l2 = dec_digits(h.stop_signal as nat).len() as int;
                    lemma_comma_scan(s@, 11, l1, c1 as int);
                    lemma_comma_scan(s@, c1 + 15, l2, c2 as int);
                }
            }
            return None;
        },
    };
    let v3 = match parse_decimal(s, c2 + 15, c3) {
        Some(v) => v,
        None => {
            proof {
                assert forall|h: I3BarHeader| s@ == header_json_text(h) implies false by {
                    lemma_header_json_facts(h);
                    let l1 = dec_digits(h.version as nat).len() as int;
                    let l2 = dec_digits(h.stop_signal as nat).len() as int;
                    let l3 = dec_digits(h.cont_signal as nat).len() as int;
                    lemma_comma_scan(s@, 11, l1, c1 as int);
                    lemma_comma_scan(s@, c1 + 15, l2, c2 as int);
                    lemma_comma_scan(s@, c2 + 15, l3, c3 as int);
                    assert(usize::MAX <= u64::MAX);
                    assert(s@.subrange(c2 + 15, c3 as int) == dec_digits(
                        (h.cont_signal as u64) as nat,
                    ));
                }
            }
            return None;
        },
    };
    if c3 > n - 21 {
        proof {
            assert forall|h: I3BarHeader| s@ == header_json_text(h) implies false by {
                lemma_header_json_facts(h);
                let l1 = dec_digits(h.version as nat).len() as int;
                let l2 = dec_digits(h.stop_signal as nat).len() as int;
                let l3 = dec_digits(h.cont_signal as nat).len() as int;
                lemma_comma_scan(s@, 11, l1, c1 as int);
                lemma_comma_scan(s@, c1 + 15, l2, c2 as int);
                lemma_comma_scan(s@, c2 + 15, l3, c3 as int);
            }
        }
        return None;
    }
    if !match_at(s, c3, ",\"click_events\":") {
        proof {
            assert forall|h: I3BarHeader| s@ == header_json_text(h) implies false by {
                lemma_header_json_facts(h);
                let l1 = dec_digits(h.version as nat).len() as int;
                let l2 = dec_digits(h.stop_signal as nat).len() as int;
                let l3 = dec_digits(h.cont_signal as nat).len() as int;
                lemma_comma_scan(s@, 11, l1, c1 as int);
                lemma_comma_scan(s@, c1 + 15, l2, c2 as int);
                lemma_comma_scan(s@, c2 + 15, l3, c3 as int);
            }
        }
        return None;
    }
    let q = c3 + 16;
    let click: bool;
    if n - q == 5 && match_at(s, q, "true}") {
        click = true;
    } else if n - q == 6 && match_at(s, q, "false}") {
        click = false;
    } else {
        proof {
            assert forall|h: I3BarHeader| s@ == header_json_text(h) implies false by {
                lemma_header_json_facts(h);
                let l1 = dec_digits(h.version as nat).len() as int;
                let l2 = dec_digits(h.stop_signal as nat).len() as int;
                let l3 = dec_digits(h.cont_signal as nat).len() as int;
                lemma_comma_scan(s@, 11, l1, c1 as int);
                lemma_comma_scan(s@, c1 + 15, l2, c2 as int);
                lemma_comma_scan(s@, c2 + 15, l3, c3 as int);
                assert(s@.subrange(q as int, n as int) == click_tail(h.click_events));
                if h.click_events {
                    assert(s@.subrange(q as int, q + 5) == "true}"@);
                } else {
                    assert(s@.subrange(q as int, q + 6) == "false}"@);
                }
            }
        }
        return None;
    }
    if v1 > usize::MAX as u64 || v2 > usize::MAX as u64 || v3 > usize::MAX as u64 {
        proof {
            assert forall|h: I3BarHeader| s@ == header_json_text(h) implies false by {
                lemma_header_json_facts(h);
                let l1 = dec_digits(h.version as nat).len() as int;
                let l2 = dec_digits(h.stop_signal as nat).len() as int;
                let l3 = dec_digits(h.cont_signal as nat).len() as int;
                lemma_comma_scan(s@, 11, l1, c1 as int);
                lemma_comma_scan(s@, c1 + 15, l2, c2 as int);
                lemma_comma_scan(s@, c2 + 15, l3, c3 as int);
                assert(usize::MAX <= u64::MAX);
                lemma_dec_digits_val(v1 as nat);
                lemma_dec_digits_val(v2 as nat);
                lemma_dec_digits_val(v3 as nat);
                lemma_dec_digits_val((h.version as u64) as nat);
                lemma_dec_digits_val((h.stop_signal as u64) as nat);
                lemma_dec_digits_val((h.cont_signal as u64) as nat);
            }
        }
        return None;
    }
    let h = I3BarHeader {
        version: v1 as usize,
        stop_signal: v2 as usize,
        cont_signal: v3 as usize,
        click_events: click,
    };
    proof {
        if click {
            assert(s@.subrange(q as int, n as int) == click_tail(true));
        } else {
            assert(s@.subrange(q as int, n as int) == click_tail(false));
        }
        lemma_header_decode_sound(s@, c1 as int, c2 as int, c3 as int, v1, v2, v3, click, h);
        assert forall|h2: I3BarHeader| s@ == header_json_text(h2) implies Some(h) == Some::<
            I3BarHeader,
        >(h2) by {
            lemma_header_json_injective(h, h2);
        }
    }
    Some(h)
}

} // verus!
