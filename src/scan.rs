//! Recognising escape sequences in text, and the text that remains visible.
use crate::chars::{chars_of, string_of};
use crate::width::{char_cols, char_width};
use vstd::prelude::*;

verus! {

/// The character sequences of a list of strings.
pub open spec fn views(v: Seq<String>) -> Seq<Seq<char>> {
    v.map_values(|x: String| x@)
}

/// A character allowed among the parameters of a control sequence: `[0-9;?]`.
pub open spec fn is_csi_param(c: char) -> bool {
    ('0' <= c && c <= '9') || c == ';' || c == '?'
}

/// The first index at or after `j` whose character is not a control-sequence parameter.
pub open spec fn params_end(s: Seq<char>, j: int) -> int
    decreases s.len() - j,
{
    if j < 0 || j >= s.len() || !is_csi_param(s[j]) {
        j
    } else {
        params_end(s, j + 1)
    }
}

/// The first index at or after `j` whose character is not a decimal digit.
pub open spec fn digits_end(s: Seq<char>, j: int) -> int
    decreases s.len() - j,
{
    if j < 0 || j >= s.len() || !('0' <= s[j] && s[j] <= '9') {
        j
    } else {
        digits_end(s, j + 1)
    }
}

/// The first index at or after `j` holding a backslash or a line feed.
pub open spec fn osc_body_end(s: Seq<char>, j: int) -> int
    decreases s.len() - j,
{
    if j < 0 || j >= s.len() || s[j] == '\\' || s[j] == '\n' {
        j
    } else {
        osc_body_end(s, j + 1)
    }
}

/// Length of the escape sequence that starts at `i`, or 0 where none does.
/// Recognised: `ESC [` parameters and a letter; `ESC ]` digits `;;` text up to a
/// backslash on the same line; `ESC )`.
pub open spec fn escape_len(s: Seq<char>, i: int) -> int {
    if 0 <= i && i + 1 < s.len() && s[i] == '\x1b' {
        if s[i + 1] == '[' {
            let e = params_end(s, i + 2);
            if e < s.len() && crate::chars::is_ascii_letter(s[e]) {
                e + 1 - i
            } else {
                0
            }
        } else if s[i + 1] == ']' {
            let d = digits_end(s, i + 2);
            if d < s.len() - 1 && s[d] == ';' && s[d + 1] == ';' {
                let b = osc_body_end(s, d + 2);
                if b < s.len() && s[b] == '\\' {
                    b + 1 - i
                } else {
                    0
                }
            } else {
                0
            }
        } else if s[i + 1] == ')' {
            2
        } else {
            0
        }
    } else {
        0
    }
}

/// The visible text of `s` from index `i` on: escape sequences are dropped, scanning
/// left to right, and every other character is kept.
pub open spec fn visible_from(s: Seq<char>, i: int) -> Seq<char>
    decreases s.len() - i,
{
    if i < 0 || i >= s.len() {
        Seq::empty()
    } else if escape_len(s, i) > 0 {
        visible_from(s, i + escape_len(s, i))
    } else {
        seq![s[i]] + visible_from(s, i + 1)
    }
}

/// The visible text of `s`: passes that drop escape sequences are repeated until one
/// removes nothing, since dropping a sequence can join an escape before it with the
/// text after it.
pub open spec fn visible_spec(s: Seq<char>) -> Seq<char>
    decreases s.len(),
{
    let v = visible_from(s, 0);
    if v.len() < s.len() {
        visible_spec(v)
    } else {
        v
    }
}

/// True when an escape sequence starts at or after `i`.
pub open spec fn has_escape_from(s: Seq<char>, i: int) -> bool {
    exists|j: int| i <= j < s.len() && escape_len(s, j) > 0
}

/// True when some escape sequence starts in `s`.
pub open spec fn has_escape(s: Seq<char>) -> bool {
    exists|i: int| 0 <= i < s.len() && escape_len(s, i) > 0
}

/// Sum of the display widths of the characters of `s`.
pub open spec fn sum_cols(s: Seq<char>) -> int
    decreases s.len(),
{
    if s.len() == 0 {
        0
    } else {
        sum_cols(s.drop_last()) + char_cols(s.last())
    }
}

/// Display width of the visible part of `s`: the sum of its characters' widths, held
/// at `usize::MAX`.
pub open spec fn visible_len_spec(s: Seq<char>) -> usize {
    if sum_cols(visible_spec(s)) > usize::MAX {
        usize::MAX
    } else {
        sum_cols(visible_spec(s)) as usize
    }
}

proof fn lemma_params_end(s: Seq<char>, j: int)
    requires
        0 <= j <= s.len(),
    ensures
        j <= params_end(s, j) <= s.len(),
    decreases s.len() - j,
{
    if j < s.len() && is_csi_param(s[j]) {
        lemma_params_end(s, j + 1);
    }
}

proof fn lemma_digits_end(s: Seq<char>, j: int)
    requires
        0 <= j <= s.len(),
    ensures
        j <= digits_end(s, j) <= s.len(),
    decreases s.len() - j,
{
    if j < s.len() && '0' <= s[j] && s[j] <= '9' {
        lemma_digits_end(s, j + 1);
    }
}

proof fn lemma_osc_body_end(s: Seq<char>, j: int)
    requires
        0 <= j <= s.len(),
    ensures
        j <= osc_body_end(s, j) <= s.len(),
    decreases s.len() - j,
{
    if j < s.len() && s[j] != '\\' && s[j] != '\n' {
        lemma_osc_body_end(s, j + 1);
    }
}

pub proof fn lemma_escape_len_bounds(s: Seq<char>, i: int)
    requires
        0 <= i <= s.len(),
    ensures
        0 <= escape_len(s, i) <= s.len() - i,
        escape_len(s, i) > 0 ==> escape_len(s, i) >= 2,
{
    if 0 <= i && i + 1 < s.len() && s[i] == '\x1b' {
        lemma_params_end(s, i + 2);
        lemma_digits_end(s, i + 2);
        let d = digits_end(s, i + 2);
        if d + 1 < s.len() {
            lemma_osc_body_end(s, d + 2);
        }
    }
}

fn params_end_exec(s: &Vec<char>, j: usize) -> (r: usize)
    requires
        j <= s@.len(),
    ensures
        r == params_end(s@, j as int),
        j <= r <= s@.len(),
{
    let mut k = j;
    while k < s.len() && (('0' <= s[k] && s[k] <= '9') || s[k] == ';' || s[k] == '?')
        invariant
            j <= k <= s@.len(),
            params_end(s@, k as int) == params_end(s@, j as int),
        decreases s@.len() - k,
    {
        k = k + 1;
    }
    k
}

fn digits_end_exec(s: &Vec<char>, j: usize) -> (r: usize)
    requires
        j <= s@.len(),
    ensures
        r == digits_end(s@, j as int),
        j <= r <= s@.len(),
{
    let mut k = j;
    while k < s.len() && ('0' <= s[k] && s[k] <= '9')
        invariant
            j <= k <= s@.len(),
            digits_end(s@, k as int) == digits_end(s@, j as int),
        decreases s@.len() - k,
    {
        k = k + 1;
    }
    k
}

fn osc_body_end_exec(s: &Vec<char>, j: usize) -> (r: usize)
    requires
        j <= s@.len(),
    ensures
        r == osc_body_end(s@, j as int),
        j <= r <= s@.len(),
{
    let mut k = j;
    while k < s.len() && s[k] != '\\' && s[k] != '\n'
        invariant
            j <= k <= s@.len(),
            osc_body_end(s@, k as int) == osc_body_end(s@, j as int),
        decreases s@.len() - k,
    {
        k = k + 1;
    }
    k
}

/// Length of the escape sequence starting at `i`, or 0.
pub fn escape_len_at(s: &Vec<char>, i: usize) -> (r: usize)
    requires
        i < s@.len(),
    ensures
        r as int == escape_len(s@, i as int),
{
    proof {
        lemma_escape_len_bounds(s@, i as int);
    }
    if i < s.len() - 1 && s[i] == '\x1b' {
        if s[i + 1] == '[' {
            let e = params_end_exec(s, i + 2);
            if e < s.len() && (('a' <= s[e] && s[e] <= 'z') || ('A' <= s[e] && s[e] <= 'Z')) {
                e + 1 - i
            } else {
                0
            }
        } else if s[i + 1] == ']' {
            let d = digits_end_exec(s, i + 2);
            if d < s.len() - 1 && s[d] == ';' && s[d + 1] == ';' {
                let b = osc_body_end_exec(s, d + 2);
                if b < s.len() && s[b] == '\\' {
                    b + 1 - i
                } else {
                    0
                }
            } else {
                0
            }
        } else if s[i + 1] == ')' {
            2
        } else {
            0
        }
    } else {
        0
    }
}

fn strip_once(s: &Vec<char>) -> (r: Vec<char>)
    ensures
        r@ == visible_from(s@, 0),
{
    let mut out: Vec<char> = Vec::new();
    let mut i: usize = 0;
    while i < s.len()
        invariant
            i <= s@.len(),
            out@ + visible_from(s@, i as int) == visible_from(s@, 0),
        decreases s@.len() - i,
    {
        let n = escape_len_at(s, i);
        proof {
            lemma_escape_len_bounds(s@, i as int);
        }
        if n > 0 {
            i = i + n;
        } else {
            out.push(s[i]);
            i = i + 1;
            assert(seq![s@[i - 1]] + visible_from(s@, i as int) == visible_from(s@, i - 1));
            assert(out@ + visible_from(s@, i as int) =~= out@.drop_last() + visible_from(
                s@,
                i - 1,
            ));
        }
    }
    out
}

proof fn lemma_pass_len(s: Seq<char>, i: int)
    requires
        0 <= i <= s.len(),
    ensures
        visible_from(s, i).len() <= s.len() - i,
        has_escape_from(s, i) ==> visible_from(s, i).len() < s.len() - i,
    decreases s.len() - i,
{
    if i < s.len() {
        lemma_escape_len_bounds(s, i);
        if escape_len(s, i) > 0 {
            lemma_pass_len(s, i + escape_len(s, i));
        } else {
            lemma_pass_len(s, i + 1);
            if has_escape_from(s, i) {
                let j = choose|j: int| i <= j < s.len() && escape_len(s, j) > 0;
                assert(j != i);
                assert(has_escape_from(s, i + 1));
            }
        }
    }
}

/// What remains of `s` has no escape sequence left.
pub proof fn lemma_visible_clean(s: Seq<char>)
    ensures
        !has_escape(visible_spec(s)),
    decreases s.len(),
{
    let v = visible_from(s, 0);
    lemma_pass_len(s, 0);
    if v.len() < s.len() {
        lemma_visible_clean(v);
    } else {
        assert(!has_escape(s)) by {
            if has_escape(s) {
                let j = choose|j: int| 0 <= j < s.len() && escape_len(s, j) > 0;
                assert(has_escape_from(s, 0));
            }
        }
        lemma_visible_of_clean(s, 0);
        assert(s.subrange(0, s.len() as int) =~= s);
    }
}

/// The characters of `s` that remain once escape sequences are removed.
pub fn visible_chars(s: &Vec<char>) -> (r: Vec<char>)
    ensures
        r@ == visible_spec(s@),
        !has_escape(r@),
{
    proof {
        lemma_visible_clean(s@);
    }
    let mut cur = strip_once(s);
    proof {
        lemma_pass_len(s@, 0);
    }
    if cur.len() == s.len() {
        assert(visible_spec(s@) == cur@);
        return cur;
    }
    assert(visible_spec(s@) == visible_spec(cur@));
    loop
        invariant
            visible_spec(cur@) == visible_spec(s@),
            !has_escape(visible_spec(s@)),
        decreases cur@.len(),
    {
        let v = strip_once(&cur);
        proof {
            lemma_pass_len(cur@, 0);
        }
        if v.len() == cur.len() {
            assert(visible_spec(cur@) == v@);
            return v;
        }
        assert(visible_spec(cur@) == visible_spec(v@));
        cur = v;
    }
}

/// Text with every recognised escape sequence removed.
pub fn visible(text: &str) -> (r: String)
    ensures
        r@ == visible_spec(text@),
        !has_escape(r@),
{
    let cs = chars_of(text);
    let v = visible_chars(&cs);
    string_of(&v)
}

pub proof fn lemma_sum_cols_nonneg(s: Seq<char>)
    ensures
        sum_cols(s) >= 0,
    decreases s.len(),
{
    if s.len() > 0 {
        lemma_sum_cols_nonneg(s.drop_last());
    }
}

fn cols_of(v: &Vec<char>) -> (r: usize)
    ensures
        r == (if sum_cols(v@) > usize::MAX {
            usize::MAX
        } else {
            sum_cols(v@) as usize
        }),
{
    let mut acc: usize = 0;
    let mut i: usize = 0;
    while i < v.len()
        invariant
            i <= v@.len(),
            acc == (if sum_cols(v@.take(i as int)) > usize::MAX {
                usize::MAX
            } else {
                sum_cols(v@.take(i as int)) as usize
            }),
        decreases v@.len() - i,
    {
        let w: usize = match char_width(v[i]) {
            Some(n) => n,
            None => 0,
        };
        assert(v@.take(i + 1).drop_last() =~= v@.take(i as int));
        assert(v@.take(i + 1).last() == v@[i as int]);
        assert(w as int == char_cols(v@[i as int]));
        assert(sum_cols(v@.take(i + 1)) == sum_cols(v@.take(i as int)) + w);
        assert(sum_cols(v@.take(i as int)) >= 0) by {
            lemma_sum_cols_nonneg(v@.take(i as int));
        }
        if w > usize::MAX - acc {
            acc = usize::MAX;
        } else {
            acc = acc + w;
        }
        i = i + 1;
    }
    assert(v@.take(v@.len() as int) =~= v@);
    acc
}

/// Display width of the visible part of `text`: the sum of the widths of its
/// characters, a control character counting 0.
pub fn visible_length(text: &str) -> (r: usize)
    ensures
        r == visible_len_spec(text@),
{
    let cs = chars_of(text);
    visible_len_chars(&cs)
}

/// A character allowed among the parameters of an SGR or erase code: `[0-9;]`.
pub open spec fn is_sgr_param(c: char) -> bool {
    ('0' <= c && c <= '9') || c == ';'
}

pub open spec fn sgr_params_end(s: Seq<char>, j: int) -> int
    decreases s.len() - j,
{
    if j < 0 || j >= s.len() || !is_sgr_param(s[j]) {
        j
    } else {
        sgr_params_end(s, j + 1)
    }
}

/// Length of the SGR or erase code (`ESC [`, `[0-9;]*`, then `m` or `K`) at `i`, or 0.
pub open spec fn sgr_len(s: Seq<char>, i: int) -> int {
    if 0 <= i && i + 1 < s.len() && s[i] == '\x1b' && s[i + 1] == '[' {
        let e = sgr_params_end(s, i + 2);
        if e < s.len() && (s[e] == 'm' || s[e] == 'K') {
            e + 1 - i
        } else {
            0
        }
    } else {
        0
    }
}

/// The SGR and erase codes of `s` from `i` on, left to right, without overlap.
pub open spec fn sgr_codes_from(s: Seq<char>, i: int) -> Seq<Seq<char>>
    decreases s.len() - i,
{
    if i < 0 || i >= s.len() {
        Seq::empty()
    } else if sgr_len(s, i) > 0 {
        seq![s.subrange(i, i + sgr_len(s, i))] + sgr_codes_from(s, i + sgr_len(s, i))
    } else {
        sgr_codes_from(s, i + 1)
    }
}

pub open spec fn sgr_codes(s: Seq<char>) -> Seq<Seq<char>> {
    sgr_codes_from(s, 0)
}

proof fn lemma_sgr_params_end(s: Seq<char>, j: int)
    requires
        0 <= j <= s.len(),
    ensures
        j <= sgr_params_end(s, j) <= s.len(),
    decreases s.len() - j,
{
    if j < s.len() && is_sgr_param(s[j]) {
        lemma_sgr_params_end(s, j + 1);
    }
}

fn sgr_len_at(s: &Vec<char>, i: usize) -> (r: usize)
    requires
        i < s@.len(),
    ensures
        r as int == sgr_len(s@, i as int),
        r == 0 || r >= 3,
        i + r <= s@.len(),
{
    if i < s.len() - 1 && s[i] == '\x1b' && s[i + 1] == '[' {
        proof {
            lemma_sgr_params_end(s@, i + 2);
        }
        let mut e = i + 2;
        while e < s.len() && (('0' <= s[e] && s[e] <= '9') || s[e] == ';')
            invariant
                i + 2 <= e <= s@.len(),
                sgr_params_end(s@, e as int) == sgr_params_end(s@, i + 2),
            decreases s@.len() - e,
        {
            e = e + 1;
        }
        if e < s.len() && (s[e] == 'm' || s[e] == 'K') {
            e + 1 - i
        } else {
            0
        }
    } else {
        0
    }
}

fn slice_string(s: &Vec<char>, a: usize, b: usize) -> (r: String)
    requires
        a <= b <= s@.len(),
    ensures
        r@ == s@.subrange(a as int, b as int),
{
    let mut v: Vec<char> = Vec::new();
    let mut k = a;
    while k < b
        invariant
            a <= k <= b <= s@.len(),
            v@ == s@.subrange(a as int, k as int),
        decreases b - k,
    {
        v.push(s[k]);
        k = k + 1;
        assert(v@ =~= s@.subrange(a as int, k as int));
    }
    string_of(&v)
}

/// The SGR and erase codes of `text`, in order of appearance.
pub fn extract_ansi_codes(text: &str) -> (r: Vec<String>)
    ensures
        views(r@) == sgr_codes(text@),
{
    let s = chars_of(text);
    let mut out: Vec<String> = Vec::new();
    let mut i: usize = 0;
    while i < s.len()
        invariant
            i <= s@.len(),
            s@ == text@,
            views(out@) + sgr_codes_from(s@, i as int) == sgr_codes(s@),
        decreases s@.len() - i,
    {
        let n = sgr_len_at(&s, i);
        if n > 0 {
            let c = slice_string(&s, i, i + n);
            let ghost before = out@;
            out.push(c);
            assert(views(out@) =~= views(before).push(c@));
            assert(views(out@) + sgr_codes_from(s@, i + n) =~= views(before)
                + sgr_codes_from(s@, i as int));
            i = i + n;
        } else {
            i = i + 1;
        }
    }
    out
}

/// The first index at or after `j` holding an `m`, or the length.
pub open spec fn m_end(s: Seq<char>, j: int) -> int
    decreases s.len() - j,
{
    if j < 0 || j >= s.len() || s[j] == 'm' {
        j
    } else {
        m_end(s, j + 1)
    }
}

/// The first index at or after `j` holding an escape, or the length.
pub open spec fn text_end(s: Seq<char>, j: int) -> int
    decreases s.len() - j,
{
    if j < 0 || j >= s.len() || s[j] == '\x1b' {
        j
    } else {
        text_end(s, j + 1)
    }
}

/// Segments of `s` from `i` on: an escape through the next `m`, or a run of
/// non-escape characters. An escape with no `m` after it belongs to no segment.
pub open spec fn segments_from(s: Seq<char>, i: int) -> Seq<Seq<char>>
    decreases s.len() - i,
{
    if i < 0 || i >= s.len() {
        Seq::empty()
    } else if s[i] == '\x1b' {
        let e = m_end(s, i + 1);
        if e < s.len() && e > i {
            seq![s.subrange(i, e + 1)] + segments_from(s, e + 1)
        } else {
            segments_from(s, i + 1)
        }
    } else {
        let e = text_end(s, i);
        if i < e <= s.len() {
            seq![s.subrange(i, e)] + segments_from(s, e)
        } else {
            Seq::empty()
        }
    }
}

pub open spec fn segments(s: Seq<char>) -> Seq<Seq<char>> {
    segments_from(s, 0)
}

proof fn lemma_m_end(s: Seq<char>, j: int)
    requires
        0 <= j <= s.len(),
    ensures
        j <= m_end(s, j) <= s.len(),
    decreases s.len() - j,
{
    if j < s.len() && s[j] != 'm' {
        lemma_m_end(s, j + 1);
    }
}

proof fn lemma_text_end(s: Seq<char>, j: int)
    requires
        0 <= j <= s.len(),
    ensures
        j <= text_end(s, j) <= s.len(),
        j < s.len() && s[j] != '\x1b' ==> j < text_end(s, j),
    decreases s.len() - j,
{
    if j < s.len() && s[j] != '\x1b' {
        lemma_text_end(s, j + 1);
    }
}

/// Splits `line` into escape codes (an escape through the next `m`) and runs of
/// plain text, in order.
pub fn split_up(line: &str) -> (r: Vec<String>)
    ensures
        views(r@) == segments(line@),
{
    let s = chars_of(line);
    let mut out: Vec<String> = Vec::new();
    let mut i: usize = 0;
    while i < s.len()
        invariant
            i <= s@.len(),
            s@ == line@,
            views(out@) + segments_from(s@, i as int) == segments(s@),
        decreases s@.len() - i,
    {
        let ghost before = out@;
        if s[i] == '\x1b' {
            proof {
                lemma_m_end(s@, i + 1);
            }
            let mut e = i + 1;
            while e < s.len() && s[e] != 'm'
                invariant
                    i + 1 <= e <= s@.len(),
                    m_end(s@, e as int) == m_end(s@, i + 1),
                decreases s@.len() - e,
            {
                e = e + 1;
            }
            if e < s.len() {
                let c = slice_string(&s, i, e + 1);
                out.push(c);
                assert(views(out@) =~= views(before).push(c@));
                assert(views(out@) + segments_from(s@, e + 1) =~= views(before)
                    + segments_from(s@, i as int));
                i = e + 1;
            } else {
                i = i + 1;
            }
        } else {
            proof {
                lemma_text_end(s@, i as int);
            }
            let mut e = i;
            while e < s.len() && s[e] != '\x1b'
                invariant
                    i <= e <= s@.len(),
                    text_end(s@, e as int) == text_end(s@, i as int),
                decreases s@.len() - e,
            {
                e = e + 1;
            }
            let c = slice_string(&s, i, e);
            out.push(c);
            assert(views(out@) =~= views(before).push(c@));
            assert(views(out@) + segments_from(s@, e as int) =~= views(before)
                + segments_from(s@, i as int));
            i = e;
        }
    }
    out
}

/// True iff `s` begins with the control sequence introducer `ESC [`.
pub fn is_ansi_code(s: &str) -> (r: bool)
    ensures
        r == (s@.len() >= 2 && s@[0] == '\x1b' && s@[1] == '['),
{
    let c = chars_of(s);
    c.len() >= 2 && c[0] == '\x1b' && c[1] == '['
}

/// `s` from `i` on with each occurrence of `p` removed, scanning left to right
/// without overlap; an empty `p` removes nothing.
pub open spec fn remove_from(s: Seq<char>, p: Seq<char>, i: int) -> Seq<char>
    decreases s.len() - i,
{
    if i < 0 || i >= s.len() {
        Seq::empty()
    } else if p.len() > 0 && i + p.len() <= s.len() && s.subrange(i, i + p.len()) == p {
        remove_from(s, p, i + p.len())
    } else {
        seq![s[i]] + remove_from(s, p, i + 1)
    }
}

/// `s` with every code of `codes` removed in turn.
pub open spec fn remove_codes(s: Seq<char>, codes: Seq<Seq<char>>) -> Seq<char>
    decreases codes.len(),
{
    if codes.len() == 0 {
        s
    } else {
        remove_from(remove_codes(s, codes.drop_last()), codes.last(), 0)
    }
}

pub(crate) fn occurs_at(s: &Vec<char>, p: &Vec<char>, i: usize) -> (r: bool)
    requires
        i <= s@.len(),
    ensures
        r == (i + p@.len() <= s@.len() && s@.subrange(i as int, i + p@.len()) == p@),
{
    if p.len() > s.len() - i {
        return false;
    }
    let mut k: usize = 0;
    while k < p.len()
        invariant
            k <= p@.len(),
            i <= s@.len(),
            i + p@.len() <= s@.len(),
            forall|q: int| 0 <= q < k ==> s@[i + q] == p@[q],
        decreases p@.len() - k,
    {
        let n = s.len();
        assert(i + k < n);
        if s[i + k] != p[k] {
            assert(s@.subrange(i as int, i + p@.len())[k as int] != p@[k as int]);
            return false;
        }
        k = k + 1;
    }
    assert(s@.subrange(i as int, i + p@.len()) =~= p@);
    true
}

fn remove_one(s: &Vec<char>, p: &Vec<char>) -> (r: Vec<char>)
    ensures
        r@ == remove_from(s@, p@, 0),
{
    let mut out: Vec<char> = Vec::new();
    let mut i: usize = 0;
    while i < s.len()
        invariant
            i <= s@.len(),
            out@ + remove_from(s@, p@, i as int) == remove_from(s@, p@, 0),
        decreases s@.len() - i,
    {
        if p.len() > 0 && occurs_at(s, p, i) {
            i = i + p.len();
        } else {
            out.push(s[i]);
            i = i + 1;
            assert(out@ + remove_from(s@, p@, i as int) =~= out@.drop_last() + remove_from(
                s@,
                p@,
                i - 1,
            ));
        }
    }
    out
}

/// `line` with each code of `code_list` removed, one code after the other.
pub fn remove_ansi(line: &str, code_list: &[String]) -> (r: String)
    ensures
        r@ == remove_codes(line@, views(code_list@)),
{
    let mut cur = chars_of(line);
    let mut j: usize = 0;
    assert(views(code_list@).take(0) =~= Seq::<Seq<char>>::empty());
    while j < code_list.len()
        invariant
            j <= code_list@.len(),
            cur@ == remove_codes(line@, views(code_list@).take(j as int)),
        decreases code_list@.len() - j,
    {
        let p = chars_of(code_list[j].as_str());
        assert(views(code_list@).take(j + 1).drop_last() =~= views(code_list@).take(j as int));
        cur = remove_one(&cur, &p);
        j = j + 1;
    }
    assert(views(code_list@).take(code_list@.len() as int) =~= views(code_list@));
    string_of(&cur)
}

/// Display width of the visible part of a character vector.
pub(crate) fn visible_len_chars(s: &Vec<char>) -> (r: usize)
    ensures
        r == visible_len_spec(s@),
{
    let v = visible_chars(s);
    cols_of(&v)
}

pub proof fn lemma_visible_of_clean(t: Seq<char>, i: int)
    requires
        0 <= i <= t.len(),
        !has_escape(t),
    ensures
        visible_from(t, i) == t.subrange(i, t.len() as int),
    decreases t.len() - i,
{
    if i < t.len() {
        assert(escape_len(t, i) <= 0);
        lemma_escape_len_bounds(t, i);
        lemma_visible_of_clean(t, i + 1);
        assert(t.subrange(i, t.len() as int) =~= seq![t[i]] + t.subrange(i + 1, t.len() as int));
    } else {
        assert(t.subrange(i, t.len() as int) =~= Seq::<char>::empty());
    }
}

/// Stripping escape sequences a second time changes nothing.
pub proof fn lemma_visible_idempotent(s: Seq<char>)
    ensures
        visible_spec(visible_spec(s)) == visible_spec(s),
{
    let v = visible_spec(s);
    lemma_visible_clean(s);
    lemma_visible_of_clean(v, 0);
    assert(v.subrange(0, v.len() as int) =~= v);
    assert(visible_from(v, 0) == v);
}

} // verus!
