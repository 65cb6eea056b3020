//! Parameters of Select Graphic Rendition codes.
use crate::chars::chars_of;
use vstd::prelude::*;

verus! {

/// `s` with every leading `ESC [` pair removed.
pub open spec fn strip_csi_prefix(s: Seq<char>) -> Seq<char>
    decreases s.len(),
{
    if s.len() >= 2 && s[0] == '\x1b' && s[1] == '[' {
        strip_csi_prefix(s.skip(2))
    } else {
        s
    }
}

/// `s` with every trailing `c` removed.
pub open spec fn trim_end_char(s: Seq<char>, c: char) -> Seq<char>
    decreases s.len(),
{
    if s.len() > 0 && s.last() == c {
        trim_end_char(s.drop_last(), c)
    } else {
        s
    }
}

/// The parameter text of a code: introducers stripped from the front, then `m`s and
/// then `K`s from the back.
pub open spec fn sgr_body(code: Seq<char>) -> Seq<char> {
    trim_end_char(trim_end_char(strip_csi_prefix(code), 'm'), 'K')
}

/// The pieces of `s` between semicolons; a string without one is a single piece.
pub open spec fn split_semis(s: Seq<char>) -> Seq<Seq<char>>
    decreases s.len(),
{
    if s.len() == 0 {
        seq![Seq::empty()]
    } else {
        let t = split_semis(s.drop_last());
        if s.last() == ';' {
            t.push(Seq::empty())
        } else {
            t.update(t.len() - 1, t.last().push(s.last()))
        }
    }
}

pub open spec fn is_digit(c: char) -> bool {
    '0' <= c && c <= '9'
}

pub open spec fn digit_value(c: char) -> nat {
    (c as u32 - '0' as u32) as nat
}

/// The value of a string of decimal digits.
pub open spec fn digits_value(d: Seq<char>) -> nat
    decreases d.len(),
{
    if d.len() == 0 {
        0
    } else {
        digits_value(d.drop_last()) * 10 + digit_value(d.last())
    }
}

/// What parsing a decimal `u32` accepts: an optional `+`, then one or more digits whose
/// value fits.
pub open spec fn parse_u32(t: Seq<char>) -> Option<u32> {
    let d = unsigned_digits(t);
    if d.len() > 0 && all_digits(d) && digits_value(d) <= u32::MAX {
        Some(digits_value(d) as u32)
    } else {
        None
    }
}

/// `t` without one leading `+`.
pub open spec fn unsigned_digits(t: Seq<char>) -> Seq<char> {
    if t.len() > 0 && t[0] == '+' {
        t.skip(1)
    } else {
        t
    }
}

pub open spec fn all_digits(d: Seq<char>) -> bool {
    forall|i: int| 0 <= i < d.len() ==> is_digit(#[trigger] d[i])
}

/// The values of the pieces that parse, in order.
pub open spec fn parse_all(toks: Seq<Seq<char>>) -> Seq<u32>
    decreases toks.len(),
{
    if toks.len() == 0 {
        Seq::empty()
    } else {
        let rest = parse_all(toks.drop_last());
        match parse_u32(toks.last()) {
            Some(v) => rest.push(v),
            None => rest,
        }
    }
}

/// The parameters of an SGR code; an empty body means a single 0.
pub open spec fn sgr_params(code: Seq<char>) -> Seq<u32> {
    let body = sgr_body(code);
    if body.len() == 0 {
        seq![0u32]
    } else {
        parse_all(split_semis(body))
    }
}

fn parse_u32_exec(t: &Vec<char>) -> (r: Option<u32>)
    ensures
        r == parse_u32(t@),
{
    let start: usize = if t.len() > 0 && t[0] == '+' {
        1
    } else {
        0
    };
    let ghost d = unsigned_digits(t@);
    assert(d =~= t@.skip(start as int));
    if start >= t.len() {
        assert(d.len() == 0);
        return None;
    }
    let mut acc: u64 = 0;
    let mut over = false;
    let mut i: usize = start;
    while i < t.len()
        invariant
            start <= i <= t@.len(),
            d =~= t@.skip(start as int),
            d == unsigned_digits(t@),
            forall|k: int| start <= k < i ==> is_digit(#[trigger] t@[k]),
            !over ==> acc == digits_value(t@.subrange(start as int, i as int)),
            !over ==> acc <= u32::MAX,
            over ==> digits_value(t@.subrange(start as int, i as int)) > u32::MAX,
        decreases t@.len() - i,
    {
        let c = t[i];
        if !('0' <= c && c <= '9') {
            assert(d.len() == t@.len() - start);
            assert(d[i - start] == t@[i as int]);
            assert(!is_digit(d[i - start]));
            assert(!all_digits(d));
            return None;
        }
        let ghost prev = t@.subrange(start as int, i as int);
        let ghost next = t@.subrange(start as int, i + 1);
        assert(next.drop_last() =~= prev);
        assert(next.last() == c);
        if !over {
            acc = acc * 10 + (c as u32 - '0' as u32) as u64;
            if acc > 0xFFFF_FFFFu64 {
                over = true;
            }
        } else {
            assert(digits_value(next) >= digits_value(prev)) by (nonlinear_arith)
                requires
                    digits_value(next) == digits_value(prev) * 10 + digit_value(c),
            ;
        }
        i = i + 1;
    }
    assert(t@.subrange(start as int, t@.len() as int) =~= d);
    assert forall|k: int| 0 <= k < d.len() implies is_digit(#[trigger] d[k]) by {
        assert(d[k] == t@[start + k]);
    }
    assert(all_digits(d));
    if over {
        None
    } else {
        Some(acc as u32)
    }
}

/// Parameters of an SGR code: the introducer and the final letter stripped, the rest
/// split on `;`, and each piece that parses as an unsigned number kept. An empty body
/// gives `[0]`.
pub fn parse_sgr_params(code: &str) -> (r: Vec<u32>)
    ensures
        r@ == sgr_params(code@),
{
    let s = chars_of(code);
    let mut k: usize = 0;
    assert(s@.skip(0) =~= s@);
    while s.len() - k > 1 && s[k] == '\x1b' && s[k + 1] == '['
        invariant
            k <= s@.len(),
            strip_csi_prefix(s@.skip(k as int)) == strip_csi_prefix(s@),
        decreases s@.len() - k,
    {
        assert(s@.skip(k as int).skip(2) =~= s@.skip(k + 2));
        k = k + 2;
    }
    assert(strip_csi_prefix(s@.skip(k as int)) == s@.skip(k as int));
    let mut e: usize = s.len();
    assert(s@.subrange(k as int, e as int) =~= s@.skip(k as int));
    while e > k && s[e - 1] == 'm'
        invariant
            k <= e <= s@.len(),
            trim_end_char(s@.subrange(k as int, e as int), 'm') == trim_end_char(
                strip_csi_prefix(s@),
                'm',
            ),
        decreases e,
    {
        assert(s@.subrange(k as int, e as int).drop_last() =~= s@.subrange(k as int, e - 1));
        e = e - 1;
    }
    while e > k && s[e - 1] == 'K'
        invariant
            k <= e <= s@.len(),
            trim_end_char(s@.subrange(k as int, e as int), 'K') == sgr_body(s@),
        decreases e,
    {
        assert(s@.subrange(k as int, e as int).drop_last() =~= s@.subrange(k as int, e - 1));
        e = e - 1;
    }
    let ghost body = s@.subrange(k as int, e as int);
    assert(body == sgr_body(s@));
    let mut out: Vec<u32> = Vec::new();
    if e == k {
        out.push(0);
        assert(out@ =~= seq![0u32]);
        return out;
    }
    let mut cur: Vec<char> = Vec::new();
    let mut j: usize = k;
    let ghost mut done: Seq<Seq<char>> = Seq::empty();
    assert(body.subrange(0, 0) =~= Seq::<char>::empty());
    assert(split_semis(Seq::<char>::empty()) =~= done.push(cur@));
    while j < e
        invariant
            k <= j <= e <= s@.len(),
            body == s@.subrange(k as int, e as int),
            split_semis(body.subrange(0, j - k)) == done.push(cur@),
            out@ == parse_all(done),
        decreases e - j,
    {
        let c = s[j];
        let ghost pre = body.subrange(0, j - k);
        let ghost post = body.subrange(0, j + 1 - k);
        assert(post.drop_last() =~= pre);
        assert(post.last() == c);
        if c == ';' {
            let v = parse_u32_exec(&cur);
            proof {
                assert(done.push(cur@).drop_last() =~= done);
                assert(parse_all(done.push(cur@)) == match parse_u32(cur@) {
                    Some(v) => parse_all(done).push(v),
                    None => parse_all(done),
                });
                done = done.push(cur@);
            }
            match v {
                Some(x) => out.push(x),
                None => {},
            }
            cur = Vec::new();
            assert(split_semis(post) =~= done.push(cur@));
        } else {
            cur.push(c);
            assert(split_semis(post) =~= done.push(cur@));
        }
        j = j + 1;
    }
    assert(body.subrange(0, e - k) =~= body);
    let v = parse_u32_exec(&cur);
    assert(done.push(cur@).drop_last() =~= done);
    match v {
        Some(x) => out.push(x),
        None => {},
    }
    out
}

} // verus!
