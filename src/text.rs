//! Splitting styled text into words and wrapping it into lines.
use crate::chars::{all_space, chars_of, is_all_space, is_space, is_space_char, push_all, string_of};
use crate::collapse::{ansi_collapse, collapse_spec};
use crate::scan::{
    extract_ansi_codes, occurs_at, sgr_codes, views, visible_chars, visible_len_chars,
    visible_len_spec, visible_length, visible_spec,
};
use crate::width::{char_cols, char_width};
use vstd::prelude::*;

verus! {

/// Lines produced by wrapping, and whether any of them was clipped.
#[derive(Debug, Clone)]
pub struct WrappedText {
    pub lines: Vec<String>,
    pub truncated: bool,
}

impl WrappedText {
    /// No lines, nothing clipped.
    pub fn empty() -> (r: Self)
        ensures
            r.lines@.len() == 0,
            !r.truncated,
    {
        WrappedText { lines: Vec::new(), truncated: false }
    }

    /// True when there are no lines.
    pub fn is_empty(&self) -> (r: bool)
        ensures
            r == (self.lines@.len() == 0),
    {
        self.lines.len() == 0
    }

    /// The number of lines.
    pub fn len(&self) -> (r: usize)
        ensures
            r == self.lines@.len(),
    {
        self.lines.len()
    }
}

/// The index just past the first ASCII letter at or after `j`, or the length.
pub open spec fn letter_end(s: Seq<char>, j: int) -> int
    decreases s.len() - j,
{
    if j < 0 || j >= s.len() {
        s.len() as int
    } else if crate::chars::is_ascii_letter(s[j]) {
        j + 1
    } else {
        letter_end(s, j + 1)
    }
}

/// The index just past the first BEL, or `ESC \`, at or after `j`, or the length.
pub open spec fn osc_end(s: Seq<char>, j: int) -> int
    decreases s.len() - j,
{
    if j < 0 || j >= s.len() {
        s.len() as int
    } else if s[j] == '\x07' {
        j + 1
    } else if s[j] == '\x1b' && j + 1 < s.len() && s[j + 1] == '\\' {
        j + 2
    } else {
        osc_end(s, j + 1)
    }
}

/// The end of the escape unit that starts with the escape at `i`: a control sequence
/// through its letter, an operating-system command through its terminator, or the
/// escape alone.
pub open spec fn escape_unit_end(s: Seq<char>, i: int) -> int {
    if i + 1 < s.len() && s[i + 1] == '[' {
        letter_end(s, i + 1)
    } else if i + 1 < s.len() && s[i + 1] == ']' {
        osc_end(s, i + 1)
    } else {
        i + 1
    }
}

/// The first index at or after `j` that is not white space.
pub open spec fn space_end(s: Seq<char>, j: int) -> int
    decreases s.len() - j,
{
    if j < 0 || j >= s.len() || !is_space(s[j]) {
        j
    } else {
        space_end(s, j + 1)
    }
}

/// Words of `s` from `i` on, `cur` being the word begun so far. A word is its escape
/// units and visible characters, then the whole run of white space after it; white
/// space with no word before it belongs to none.
pub open spec fn words_from(s: Seq<char>, i: int, cur: Seq<char>) -> Seq<Seq<char>>
    decreases s.len() - i,
{
    if i < 0 || i >= s.len() {
        if cur.len() > 0 {
            seq![cur]
        } else {
            Seq::empty()
        }
    } else if s[i] == '\x1b' {
        let e = escape_unit_end(s, i);
        if i < e <= s.len() {
            words_from(s, e, cur + s.subrange(i, e))
        } else {
            Seq::empty()
        }
    } else if is_space(s[i]) {
        let e = space_end(s, i);
        if i < e <= s.len() {
            if cur.len() == 0 {
                words_from(s, e, Seq::empty())
            } else {
                seq![cur + s.subrange(i, e)] + words_from(s, e, Seq::empty())
            }
        } else {
            Seq::empty()
        }
    } else {
        words_from(s, i + 1, cur.push(s[i]))
    }
}

pub open spec fn split_spec(s: Seq<char>) -> Seq<Seq<char>> {
    words_from(s, 0, Seq::empty())
}

proof fn lemma_letter_end(s: Seq<char>, j: int)
    requires
        0 <= j <= s.len(),
    ensures
        j <= letter_end(s, j) <= s.len(),
        j < s.len() ==> j < letter_end(s, j),
    decreases s.len() - j,
{
    if j < s.len() && !crate::chars::is_ascii_letter(s[j]) {
        lemma_letter_end(s, j + 1);
    }
}

proof fn lemma_osc_end(s: Seq<char>, j: int)
    requires
        0 <= j <= s.len(),
    ensures
        j <= osc_end(s, j) <= s.len(),
        j < s.len() ==> j < osc_end(s, j),
    decreases s.len() - j,
{
    if j < s.len() && s[j] != '\x07' && !(s[j] == '\x1b' && j + 1 < s.len() && s[j + 1]
        == '\\') {
        lemma_osc_end(s, j + 1);
    }
}

pub(crate) proof fn lemma_space_end(s: Seq<char>, j: int)
    requires
        0 <= j <= s.len(),
    ensures
        j <= space_end(s, j) <= s.len(),
        j < s.len() && is_space(s[j]) ==> j < space_end(s, j),
    decreases s.len() - j,
{
    if j < s.len() && is_space(s[j]) {
        lemma_space_end(s, j + 1);
    }
}

fn escape_unit_end_exec(s: &Vec<char>, i: usize) -> (r: usize)
    requires
        i < s@.len(),
    ensures
        r == escape_unit_end(s@, i as int),
        i < r <= s@.len(),
{
    if i < s.len() - 1 && s[i + 1] == '[' {
        proof {
            lemma_letter_end(s@, i + 1);
        }
        let mut k = i + 1;
        while k < s.len() && !(('a' <= s[k] && s[k] <= 'z') || ('A' <= s[k] && s[k] <= 'Z'))
            invariant
                i + 1 <= k <= s@.len(),
                letter_end(s@, k as int) == letter_end(s@, i + 1),
            decreases s@.len() - k,
        {
            k = k + 1;
        }
        if k < s.len() {
            k + 1
        } else {
            k
        }
    } else if i < s.len() - 1 && s[i + 1] == ']' {
        proof {
            lemma_osc_end(s@, i + 1);
        }
        let mut k = i + 1;
        while k < s.len() && s[k] != '\x07' && !(s[k] == '\x1b' && k < s.len() - 1 && s[k
            + 1] == '\\')
            invariant
                i + 1 <= k <= s@.len(),
                osc_end(s@, k as int) == osc_end(s@, i + 1),
            decreases s@.len() - k,
        {
            k = k + 1;
        }
        if k >= s.len() {
            k
        } else if s[k] == '\x07' {
            k + 1
        } else {
            k + 2
        }
    } else {
        i + 1
    }
}

/// Splits `text` into words that keep their escape sequences and their trailing white
/// space; no escape sequence is ever split.
pub fn split_text(text: &str) -> (r: Vec<String>)
    ensures
        views(r@) == split_spec(text@),
{
    let s = chars_of(text);
    let mut words: Vec<String> = Vec::new();
    let mut cur: Vec<char> = Vec::new();
    let mut i: usize = 0;
    while i < s.len()
        invariant
            i <= s@.len(),
            s@ == text@,
            views(words@) + words_from(s@, i as int, cur@) == split_spec(s@),
        decreases s@.len() - i,
    {
        let ch = s[i];
        if ch == '\x1b' {
            let e = escape_unit_end_exec(&s, i);
            let ghost old_cur = cur@;
            let mut k = i;
            while k < e
                invariant
                    i <= k <= e <= s@.len(),
                    cur@ == old_cur + s@.subrange(i as int, k as int),
                decreases e - k,
            {
                cur.push(s[k]);
                k = k + 1;
                assert(cur@ =~= old_cur + s@.subrange(i as int, k as int));
            }
            assert(words_from(s@, i as int, old_cur) == words_from(s@, e as int, cur@));
            i = e;
        } else if is_space_char(ch) {
            proof {
                lemma_space_end(s@, i as int);
            }
            let mut e = i;
            while e < s.len() && is_space_char(s[e])
                invariant
                    i <= e <= s@.len(),
                    space_end(s@, e as int) == space_end(s@, i as int),
                decreases s@.len() - e,
            {
                e = e + 1;
            }
            if cur.len() > 0 {
                let ghost before = words@;
                let mut k = i;
                let ghost old_cur = cur@;
                while k < e
                    invariant
                        i <= k <= e <= s@.len(),
                        cur@ == old_cur + s@.subrange(i as int, k as int),
                    decreases e - k,
                {
                    cur.push(s[k]);
                    k = k + 1;
                    assert(cur@ =~= old_cur + s@.subrange(i as int, k as int));
                }
                let w = string_of(&cur);
                words.push(w);
                assert(views(words@) =~= views(before).push(cur@));
                assert(views(words@) + words_from(s@, e as int, Seq::empty()) =~= views(before)
                    + words_from(s@, i as int, old_cur));
                cur = Vec::new();
            } else {
                assert(cur@ =~= Seq::<char>::empty());
                assert(words_from(s@, i as int, cur@) == words_from(s@, e as int, cur@));
            }
            i = e;
        } else {
            let ghost old_cur = cur@;
            cur.push(ch);
            i = i + 1;
            assert(words_from(s@, i - 1, old_cur) == words_from(s@, i as int, cur@));
        }
    }
    if cur.len() > 0 {
        let ghost before = words@;
        let w = string_of(&cur);
        words.push(w);
        assert(views(words@) =~= views(before) + seq![cur@]);
    }
    words
}

/// The clipped text from `i` on: escape sequences (an escape through the next `m`) are
/// copied whatever the budget; a visible character is copied while it fits in what is
/// left of `max` columns, and the first one that does not ends the text.
pub open spec fn trunc_from(s: Seq<char>, i: int, count: int, in_esc: bool, max: int) -> Seq<
    char,
>
    decreases s.len() - i,
{
    if i < 0 || i >= s.len() {
        Seq::empty()
    } else if in_esc {
        seq![s[i]] + trunc_from(s, i + 1, count, s[i] != 'm', max)
    } else if s[i] == '\x1b' {
        seq![s[i]] + trunc_from(s, i + 1, count, true, max)
    } else if count + char_cols(s[i]) > max {
        Seq::empty()
    } else {
        seq![s[i]] + trunc_from(s, i + 1, count + char_cols(s[i]), false, max)
    }
}

pub open spec fn truncate_spec(s: Seq<char>, max: int) -> Seq<char> {
    trunc_from(s, 0, 0, false, max)
}

fn truncate_chars(s: &Vec<char>, max: usize) -> (r: Vec<char>)
    ensures
        r@ == truncate_spec(s@, max as int),
{
    let mut out: Vec<char> = Vec::new();
    let mut count: usize = 0;
    let mut in_esc = false;
    let mut i: usize = 0;
    while i < s.len()
        invariant
            i <= s@.len(),
            count <= max,
            out@ + trunc_from(s@, i as int, count as int, in_esc, max as int) == truncate_spec(
                s@,
                max as int,
            ),
        decreases s@.len() - i,
    {
        let ch = s[i];
        let ghost before = out@;
        let ghost c0 = count as int;
        let ghost e0 = in_esc;
        if in_esc {
            out.push(ch);
            if ch == 'm' {
                in_esc = false;
            }
        } else if ch == '\x1b' {
            in_esc = true;
            out.push(ch);
        } else {
            let w: usize = match char_width(ch) {
                Some(n) => n,
                None => 0,
            };
            if w > max - count {
                return out;
            }
            out.push(ch);
            count = count + w;
        }
        i = i + 1;
        assert(out@ =~= before.push(ch));
        assert(out@ + trunc_from(s@, i as int, count as int, in_esc, max as int) =~= before
            + trunc_from(s@, i - 1, c0, e0, max as int));
    }
    out
}

/// Columns of the characters of `t` that the clip counts: those outside its escape
/// sequences (an escape through the next `m`), `in_esc` telling whether `t` starts
/// inside one.
pub open spec fn clip_cols(t: Seq<char>, in_esc: bool) -> int
    decreases t.len(),
{
    if t.len() == 0 {
        0
    } else if in_esc {
        clip_cols(t.skip(1), t[0] != 'm')
    } else if t[0] == '\x1b' {
        clip_cols(t.skip(1), true)
    } else {
        char_cols(t[0]) + clip_cols(t.skip(1), false)
    }
}

proof fn lemma_trunc_from_fits(s: Seq<char>, i: int, count: int, in_esc: bool, max: int)
    requires
        0 <= i <= s.len(),
        count <= max,
    ensures
        count + clip_cols(trunc_from(s, i, count, in_esc, max), in_esc) <= max,
    decreases s.len() - i,
{
    let r = trunc_from(s, i, count, in_esc, max);
    if i < s.len() {
        if in_esc {
            lemma_trunc_from_fits(s, i + 1, count, s[i] != 'm', max);
            assert(r.skip(1) =~= trunc_from(s, i + 1, count, s[i] != 'm', max));
        } else if s[i] == '\x1b' {
            lemma_trunc_from_fits(s, i + 1, count, true, max);
            assert(r.skip(1) =~= trunc_from(s, i + 1, count, true, max));
        } else if count + char_cols(s[i]) <= max {
            lemma_trunc_from_fits(s, i + 1, count + char_cols(s[i]), false, max);
            assert(r.skip(1) =~= trunc_from(s, i + 1, count + char_cols(s[i]), false, max));
        }
    }
}

/// The characters that clipping to `max` columns keeps outside escape sequences take
/// at most `max` columns together.
pub proof fn lemma_truncate_fits(s: Seq<char>, max: int)
    requires
        0 <= max,
    ensures
        clip_cols(truncate_spec(s, max), false) <= max,
{
    lemma_trunc_from_fits(s, 0, 0, false, max);
}

/// Keeps the start of `text` that fits in `max_visible` display columns, with every
/// escape sequence on the way (an escape through the next `m`, taking no columns).
pub fn truncate_to_visible(text: &str, max_visible: usize) -> (r: String)
    ensures
        r@ == truncate_spec(text@, max_visible as int),
{
    let s = chars_of(text);
    let v = truncate_chars(&s, max_visible);
    string_of(&v)
}

pub open spec fn spaces(n: nat) -> Seq<char> {
    Seq::new(n, |_i: int| ' ')
}

/// The codes of `ss` written one after the other.
pub open spec fn concat_all(ss: Seq<Seq<char>>) -> Seq<char>
    decreases ss.len(),
{
    if ss.len() == 0 {
        Seq::empty()
    } else {
        concat_all(ss.drop_last()) + ss.last()
    }
}

pub open spec fn starts_with(a: Seq<char>, b: Seq<char>) -> bool {
    b.len() <= a.len() && a.subrange(0, b.len() as int) == b
}

pub open spec fn sat_sub(a: int, b: int) -> int {
    if a >= b {
        a - b
    } else {
        0
    }
}

/// The code that closes a line: a full reset, or nothing when formatting is kept open.
pub open spec fn resetter(preserve: bool) -> Seq<char> {
    if preserve {
        Seq::empty()
    } else {
        seq!['\x1b', '[', '0', 'm']
    }
}

/// The options of a wrap.
pub struct WrapParams {
    pub width: int,
    pub indent: nat,
    pub first: Seq<char>,
    pub next: Seq<char>,
    pub force: bool,
    pub preserve: bool,
}

/// The wrapper's progress: finished lines, the line being filled, the collapsed style
/// in effect, and whether a line was clipped.
pub struct WrapState {
    pub lines: Seq<Seq<char>>,
    pub cur: Seq<char>,
    pub style: Seq<Seq<char>>,
    pub truncated: bool,
}

/// Prefix and line joined, clipped to `width - 1` columns plus an ellipsis when
/// clipping is asked for and the line is too wide, then the resetter, then (when
/// `pad`) spaces up to the width. The flag tells whether it was clipped.
pub open spec fn finish_line(p: WrapParams, prefix: Seq<char>, cur: Seq<char>, pad: bool) -> (
    Seq<char>,
    bool,
) {
    let lc = prefix + cur;
    let clip = p.force && visible_len_spec(lc) > p.width;
    let lc2 = if clip {
        truncate_spec(lc, sat_sub(p.width, 1)).push('\u{2026}')
    } else {
        lc
    };
    let tail = if pad {
        spaces(sat_sub(p.width, visible_len_spec(lc2) as int) as nat)
    } else {
        Seq::empty()
    };
    (lc2 + resetter(p.preserve) + tail, clip)
}

/// The prefix of the line that would be finished next.
pub open spec fn prefix_for(p: WrapParams, st: WrapState) -> Seq<char> {
    if st.lines.len() == 0 {
        p.first
    } else {
        p.next
    }
}

/// One word placed: appended when it fits beside the prefix (a word without visible
/// width always does); otherwise the line so far is finished (and kept unless it shows
/// nothing but spaces) and a new line starts with the indent, the style in effect and
/// the word.
pub open spec fn wrap_step(p: WrapParams, st: WrapState, word: Seq<char>) -> WrapState {
    let codes = sgr_codes(word);
    let lead = codes.len() > 0 && starts_with(word, codes[0]);
    let style1 = if lead {
        st.style.push(codes[0])
    } else {
        st.style
    };
    let rest = if lead {
        codes.skip(1)
    } else {
        codes
    };
    let style2 = collapse_spec(style1 + rest);
    let wl = visible_len_spec(word) as int;
    let ll = visible_len_spec(st.cur) as int;
    let avail = sat_sub(p.width, visible_len_spec(prefix_for(p, st)) as int);
    if wl == 0 || ll + wl <= avail {
        WrapState { cur: st.cur + word, style: style2, ..st }
    } else {
        let fin = finish_line(p, prefix_for(p, st), st.cur, true);
        let keep = st.cur.len() > 0 && !all_space(visible_spec(fin.0));
        WrapState {
            lines: if keep {
                st.lines.push(fin.0)
            } else {
                st.lines
            },
            cur: spaces(p.indent) + concat_all(style1) + word,
            style: style2,
            truncated: st.truncated || (st.cur.len() > 0 && fin.1),
        }
    }
}

pub open spec fn start_state() -> WrapState {
    WrapState { lines: Seq::empty(), cur: Seq::empty(), style: Seq::empty(), truncated: false }
}

pub open spec fn wrap_words(p: WrapParams, words: Seq<Seq<char>>) -> WrapState
    decreases words.len(),
{
    if words.len() == 0 {
        start_state()
    } else {
        wrap_step(p, wrap_words(p, words.drop_last()), words.last())
    }
}

/// The last line finished, unpadded, when it shows anything but spaces.
pub open spec fn wrap_finish(p: WrapParams, st: WrapState) -> (Seq<Seq<char>>, bool) {
    if st.cur.len() > 0 && !all_space(visible_spec(st.cur)) {
        let fin = finish_line(p, prefix_for(p, st), st.cur, false);
        (st.lines.push(fin.0), st.truncated || fin.1)
    } else {
        (st.lines, st.truncated)
    }
}

/// Lines and clipping flag of a wrap. Width 0 leaves the text whole on one line.
pub open spec fn text_wrap_spec(text: Seq<char>, p: WrapParams) -> (Seq<Seq<char>>, bool) {
    if p.width == 0 {
        (seq![text], false)
    } else if split_spec(text).len() == 0 {
        (Seq::empty(), false)
    } else {
        wrap_finish(p, wrap_words(p, split_spec(text).push(Seq::empty())))
    }
}

struct WrapConfig {
    width: usize,
    indent: usize,
    first: Vec<char>,
    next: Vec<char>,
    first_width: usize,
    next_width: usize,
    force: bool,
    preserve: bool,
}

impl WrapConfig {
    spec fn params(&self) -> WrapParams {
        WrapParams {
            width: self.width as int,
            indent: self.indent as nat,
            first: self.first@,
            next: self.next@,
            force: self.force,
            preserve: self.preserve,
        }
    }

    spec fn wf(&self) -> bool {
        &&& self.first_width == visible_len_spec(self.first@)
        &&& self.next_width == visible_len_spec(self.next@)
    }
}

fn push_spaces(out: &mut Vec<char>, n: usize)
    ensures
        final(out)@ == old(out)@ + spaces(n as nat),
{
    let mut k: usize = 0;
    while k < n
        invariant
            k <= n,
            out@ == old(out)@ + spaces(k as nat),
        decreases n - k,
    {
        out.push(' ');
        k = k + 1;
        assert(out@ =~= old(out)@ + spaces(k as nat));
    }
}

fn finish_line_exec(cfg: &WrapConfig, prefix: &Vec<char>, cur: &Vec<char>, pad: bool) -> (r: (
    Vec<char>,
    bool,
))
    ensures
        (r.0@, r.1) == finish_line(cfg.params(), prefix@, cur@, pad),
{
    let mut lc: Vec<char> = Vec::new();
    push_all(&mut lc, prefix);
    push_all(&mut lc, cur);
    let clip = cfg.force && visible_len_chars(&lc) > cfg.width;
    if clip {
        let budget = if cfg.width >= 1 {
            cfg.width - 1
        } else {
            0
        };
        lc = truncate_chars(&lc, budget);
        lc.push('\u{2026}');
    }
    let vl = visible_len_chars(&lc);
    let padding = if cfg.width >= vl {
        cfg.width - vl
    } else {
        0
    };
    let ghost body = lc@;
    if !cfg.preserve {
        lc.push('\x1b');
        lc.push('[');
        lc.push('0');
        lc.push('m');
    }
    assert(lc@ =~= body + resetter(cfg.preserve));
    if pad {
        push_spaces(&mut lc, padding);
    } else {
        assert(lc@ =~= lc@ + Seq::<char>::empty());
    }
    (lc, clip)
}

pub(crate) fn concat_strings(out: &mut Vec<char>, ss: &Vec<String>)
    ensures
        final(out)@ == old(out)@ + concat_all(views(ss@)),
{
    let mut k: usize = 0;
    assert(views(ss@).take(0) =~= Seq::<Seq<char>>::empty());
    while k < ss.len()
        invariant
            k <= ss@.len(),
            out@ == old(out)@ + concat_all(views(ss@).take(k as int)),
        decreases ss@.len() - k,
    {
        let c = chars_of(ss[k].as_str());
        let ghost before = out@;
        push_all(out, &c);
        assert(views(ss@).take(k + 1).drop_last() =~= views(ss@).take(k as int));
        k = k + 1;
        assert(out@ =~= old(out)@ + concat_all(views(ss@).take(k as int)));
    }
    assert(views(ss@).take(ss@.len() as int) =~= views(ss@));
}

fn wrap_step_exec(
    cfg: &WrapConfig,
    lines: &mut Vec<String>,
    cur: &mut Vec<char>,
    style: &mut Vec<String>,
    truncated: &mut bool,
    word: &Vec<char>,
)
    requires
        cfg.wf(),
    ensures
        ({
            let st = wrap_step(
                cfg.params(),
                WrapState {
                    lines: views(old(lines)@),
                    cur: old(cur)@,
                    style: views(old(style)@),
                    truncated: *old(truncated),
                },
                word@,
            );
            &&& views(final(lines)@) == st.lines
            &&& final(cur)@ == st.cur
            &&& views(final(style)@) == st.style
            &&& *final(truncated) == st.truncated
        }),
{
    let ghost st0 = WrapState {
        lines: views(lines@),
        cur: cur@,
        style: views(style@),
        truncated: *truncated,
    };
    let wstr = string_of(word);
    let codes = extract_ansi_codes(wstr.as_str());
    let mut lead = false;
    if codes.len() > 0 {
        let c0 = chars_of(codes[0].as_str());
        lead = c0.len() <= word.len() && occurs_at(word, &c0, 0);
        if lead {
            style.push(codes[0].clone());
        }
    }
    assert(lead == (sgr_codes(word@).len() > 0 && starts_with(word@, sgr_codes(word@)[0])));
    let ghost style1 = views(style@);
    assert(style1 =~= (if lead {
        st0.style.push(sgr_codes(word@)[0])
    } else {
        st0.style
    }));
    let wl = visible_len_chars(word);
    let ll = visible_len_chars(cur);
    let pw = if lines.len() == 0 {
        cfg.first_width
    } else {
        cfg.next_width
    };
    let avail = if cfg.width >= pw {
        cfg.width - pw
    } else {
        0
    };
    if wl == 0 || (wl <= avail && ll <= avail - wl) {
        push_all(cur, word);
    } else {
        let prefix = if lines.len() == 0 {
            &cfg.first
        } else {
            &cfg.next
        };
        let fin = finish_line_exec(cfg, prefix, cur, true);
        if cur.len() > 0 {
            let vis = visible_chars(&fin.0);
            if !is_all_space(&vis) {
                let ghost before = lines@;
                lines.push(string_of(&fin.0));
                assert(views(lines@) =~= views(before).push(fin.0@));
            }
            if fin.1 {
                *truncated = true;
            }
        }
        let mut fresh: Vec<char> = Vec::new();
        push_spaces(&mut fresh, cfg.indent);
        concat_strings(&mut fresh, style);
        push_all(&mut fresh, word);
        *cur = fresh;
    }
    let mut all: Vec<String> = Vec::new();
    let mut k: usize = 0;
    while k < style.len()
        invariant
            k <= style@.len(),
            views(all@) == views(style@).take(k as int),
        decreases style@.len() - k,
    {
        let c = style[k].clone();
        let ghost before = all@;
        all.push(c);
        assert(views(all@) =~= views(before).push(c@));
        assert(views(style@).take(k + 1) =~= views(style@).take(k as int).push(c@));
        k = k + 1;
    }
    let from: usize = if lead {
        1
    } else {
        0
    };
    let ghost head = views(all@);
    let mut k2: usize = from;
    while k2 < codes.len()
        invariant
            from <= k2 <= codes@.len(),
            views(all@) == head + views(codes@).subrange(from as int, k2 as int),
        decreases codes@.len() - k2,
    {
        let c = codes[k2].clone();
        let ghost before = all@;
        all.push(c);
        assert(views(all@) =~= views(before).push(c@));
        assert(views(codes@).subrange(from as int, k2 + 1) =~= views(codes@).subrange(
            from as int,
            k2 as int,
        ).push(c@));
        k2 = k2 + 1;
    }
    assert(views(style@).take(style@.len() as int) =~= views(style@));
    assert(views(codes@).subrange(from as int, codes@.len() as int) =~= (if lead {
        sgr_codes(word@).skip(1)
    } else {
        sgr_codes(word@)
    }));
    *style = ansi_collapse(all.as_slice(), "");
}

/// Wraps `text` into lines of `width` display columns. The first line carries
/// `first_prefix`, later ones `next_prefix`; a new line starts with `indent` spaces and
/// the style in effect. With `force_truncate` a line wider than `width` is clipped and
/// ends in an ellipsis; unless `preserve_format`, each line ends in a full reset.
pub fn text_wrap(
    text: &str,
    width: usize,
    indent: usize,
    first_prefix: &str,
    next_prefix: &str,
    force_truncate: bool,
    preserve_format: bool,
) -> (r: WrappedText)
    ensures
        (views(r.lines@), r.truncated) == text_wrap_spec(
            text@,
            WrapParams {
                width: width as int,
                indent: indent as nat,
                first: first_prefix@,
                next: next_prefix@,
                force: force_truncate,
                preserve: preserve_format,
            },
        ),
        width == 0 ==> views(r.lines@) == seq![text@] && !r.truncated,
{
    let ghost p = WrapParams {
        width: width as int,
        indent: indent as nat,
        first: first_prefix@,
        next: next_prefix@,
        force: force_truncate,
        preserve: preserve_format,
    };
    if width == 0 {
        let mut lines: Vec<String> = Vec::new();
        lines.push(text.to_owned());
        assert(views(lines@) =~= seq![text@]);
        return WrappedText { lines, truncated: false };
    }
    let cfg = WrapConfig {
        width,
        indent,
        first: chars_of(first_prefix),
        next: chars_of(next_prefix),
        first_width: visible_length(first_prefix),
        next_width: visible_length(next_prefix),
        force: force_truncate,
        preserve: preserve_format,
    };
    assert(cfg.params() == p);
    let words = split_text(text);
    if words.len() == 0 {
        return WrappedText::empty();
    }
    let ghost all = views(words@).push(Seq::empty());
    let mut lines: Vec<String> = Vec::new();
    let mut cur: Vec<char> = Vec::new();
    let mut style: Vec<String> = Vec::new();
    let mut truncated = false;
    let mut k: usize = 0;
    assert(all.take(0) =~= Seq::<Seq<char>>::empty());
    assert(views(lines@) =~= Seq::<Seq<char>>::empty());
    assert(cur@ =~= Seq::<char>::empty());
    assert(views(style@) =~= Seq::<Seq<char>>::empty());
    while k < words.len()
        invariant
            k <= words@.len(),
            cfg.wf(),
            cfg.params() == p,
            all == views(words@).push(Seq::empty()),
            ({
                let st = wrap_words(p, all.take(k as int));
                &&& views(lines@) == st.lines
                &&& cur@ == st.cur
                &&& views(style@) == st.style
                &&& truncated == st.truncated
            }),
        decreases words@.len() - k,
    {
        let word: Vec<char> = chars_of(words[k].as_str());
        assert(word@ == all[k as int]);
        assert(all.take(k + 1).drop_last() =~= all.take(k as int));
        wrap_step_exec(&cfg, &mut lines, &mut cur, &mut style, &mut truncated, &word);
        k = k + 1;
    }
    let last: Vec<char> = Vec::new();
    assert(last@ =~= all[k as int]);
    assert(all.take(k + 1).drop_last() =~= all.take(k as int));
    wrap_step_exec(&cfg, &mut lines, &mut cur, &mut style, &mut truncated, &last);
    assert(all.take(k + 1) =~= all);
    if cur.len() > 0 {
        let vis = visible_chars(&cur);
        if !is_all_space(&vis) {
            let prefix = if lines.len() == 0 {
                &cfg.first
            } else {
                &cfg.next
            };
            let fin = finish_line_exec(&cfg, prefix, &cur, false);
            let ghost before = lines@;
            lines.push(string_of(&fin.0));
            assert(views(lines@) =~= views(before).push(fin.0@));
            return WrappedText { lines, truncated: truncated || fin.1 };
        }
    }
    WrappedText { lines, truncated }
}

/// The first index at or after `j` that holds white space, or the length.
pub open spec fn word_end(s: Seq<char>, j: int) -> int
    decreases s.len() - j,
{
    if j < 0 || j >= s.len() || is_space(s[j]) {
        j
    } else {
        word_end(s, j + 1)
    }
}

/// The maximal runs of non-white-space characters of `s` from `i` on.
pub open spec fn plain_words_from(s: Seq<char>, i: int) -> Seq<Seq<char>>
    decreases s.len() - i,
{
    if i < 0 || i >= s.len() {
        Seq::empty()
    } else if is_space(s[i]) {
        plain_words_from(s, i + 1)
    } else {
        let e = word_end(s, i);
        if i < e <= s.len() {
            seq![s.subrange(i, e)] + plain_words_from(s, e)
        } else {
            Seq::empty()
        }
    }
}

/// Lines so far and the line being filled, after greedy placement of `words`: a word
/// joins the line, after one space, while the widths stay within `width`.
pub open spec fn plain_fill(words: Seq<Seq<char>>, width: int) -> (Seq<Seq<char>>, Seq<char>)
    decreases words.len(),
{
    if words.len() == 0 {
        (Seq::empty(), Seq::empty())
    } else {
        let (lines, cur) = plain_fill(words.drop_last(), width);
        let w = words.last();
        if cur.len() == 0 {
            (lines, w)
        } else if crate::width::str_columns(cur) + 1 + crate::width::str_columns(w) <= width {
            (lines, cur + seq![' '] + w)
        } else {
            (lines.push(cur), w)
        }
    }
}

pub open spec fn simple_wrap_spec(text: Seq<char>, width: int) -> Seq<Seq<char>> {
    if width == 0 || text.len() == 0 {
        seq![text]
    } else {
        let (lines, cur) = plain_fill(plain_words_from(text, 0), width);
        let all = if cur.len() > 0 {
            lines.push(cur)
        } else {
            lines
        };
        if all.len() == 0 {
            seq![Seq::empty()]
        } else {
            all
        }
    }
}

proof fn lemma_word_end(s: Seq<char>, j: int)
    requires
        0 <= j <= s.len(),
    ensures
        j <= word_end(s, j) <= s.len(),
        j < s.len() && !is_space(s[j]) ==> j < word_end(s, j),
    decreases s.len() - j,
{
    if j < s.len() && !is_space(s[j]) {
        lemma_word_end(s, j + 1);
    }
}

fn plain_words(s: &Vec<char>) -> (r: Vec<Vec<char>>)
    ensures
        r@.map_values(|v: Vec<char>| v@) == plain_words_from(s@, 0),
{
    let mut out: Vec<Vec<char>> = Vec::new();
    let mut i: usize = 0;
    while i < s.len()
        invariant
            i <= s@.len(),
            out@.map_values(|v: Vec<char>| v@) + plain_words_from(s@, i as int)
                == plain_words_from(s@, 0),
        decreases s@.len() - i,
    {
        if is_space_char(s[i]) {
            i = i + 1;
        } else {
            proof {
                lemma_word_end(s@, i as int);
            }
            let mut e = i;
            let mut w: Vec<char> = Vec::new();
            while e < s.len() && !is_space_char(s[e])
                invariant
                    i <= e <= s@.len(),
                    word_end(s@, e as int) == word_end(s@, i as int),
                    w@ == s@.subrange(i as int, e as int),
                decreases s@.len() - e,
            {
                w.push(s[e]);
                e = e + 1;
                assert(w@ =~= s@.subrange(i as int, e as int));
            }
            let ghost before = out@;
            let ghost wv = w@;
            out.push(w);
            assert(out@.map_values(|v: Vec<char>| v@) =~= before.map_values(|v: Vec<char>| v@)
                .push(wv));
            assert(out@.map_values(|v: Vec<char>| v@) + plain_words_from(s@, e as int)
                =~= before.map_values(|v: Vec<char>| v@) + plain_words_from(s@, i as int));
            i = e;
        }
    }
    out
}

fn width_of(v: &Vec<char>) -> (r: usize)
    ensures
        r == crate::width::str_columns(v@),
{
    let st = string_of(v);
    crate::width::str_width(st.as_str())
}

/// Greedy wrap of plain text: words are the runs between white space, joined by single
/// spaces while the line stays within `width` columns. Empty text or width 0 gives the
/// text as the only line.
pub fn simple_wrap(text: &str, width: usize) -> (r: Vec<String>)
    ensures
        views(r@) == simple_wrap_spec(text@, width as int),
{
    let s = chars_of(text);
    if width == 0 || s.len() == 0 {
        let mut one: Vec<String> = Vec::new();
        one.push(text.to_owned());
        assert(views(one@) =~= seq![text@]);
        return one;
    }
    let words = plain_words(&s);
    let ghost ws = words@.map_values(|v: Vec<char>| v@);
    let mut lines: Vec<String> = Vec::new();
    let mut cur: Vec<char> = Vec::new();
    let mut k: usize = 0;
    assert(ws.take(0) =~= Seq::<Seq<char>>::empty());
    assert(views(lines@) =~= Seq::<Seq<char>>::empty());
    while k < words.len()
        invariant
            k <= words@.len(),
            ws == words@.map_values(|v: Vec<char>| v@),
            (views(lines@), cur@) == plain_fill(ws.take(k as int), width as int),
        decreases words@.len() - k,
    {
        let w = &words[k];
        assert(ws.take(k + 1).drop_last() =~= ws.take(k as int));
        assert(ws.take(k + 1).last() == w@);
        let ghost before = lines@;
        if cur.len() == 0 {
            cur = w.clone();
            assert(cur@ =~= w@);
        } else {
            let cl = width_of(&cur);
            let wl = width_of(w);
            if cl < width && wl <= width - cl - 1 {
                cur.push(' ');
                push_all(&mut cur, w);
            } else {
                lines.push(string_of(&cur));
                assert(views(lines@) =~= views(before).push(cur@));
                cur = w.clone();
                assert(cur@ =~= w@);
            }
        }
        k = k + 1;
    }
    assert(ws.take(words@.len() as int) =~= ws);
    if cur.len() > 0 {
        let ghost before = lines@;
        lines.push(string_of(&cur));
        assert(views(lines@) =~= views(before).push(cur@));
    }
    if lines.len() == 0 {
        lines.push(String::new());
        assert(views(lines@) =~= seq![Seq::<char>::empty()]);
    }
    lines
}

} // verus!
