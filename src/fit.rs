//! Width bounds of wrapped lines when clipping is on.
use crate::scan::{
    lemma_sum_cols_nonneg,
    escape_len, has_escape, sgr_codes_from, sgr_len, lemma_visible_of_clean, params_end, sum_cols, visible_from,
    visible_len_spec, visible_spec,
};
use crate::chars::is_space;
use crate::collapse::collapse_spec;
use crate::text::{
    concat_all, finish_line, lemma_space_end, prefix_for, resetter, sat_sub, space_end, spaces,
    split_spec, text_wrap_spec, trunc_from, truncate_spec, words_from, wrap_step, wrap_words,
    WrapParams, WrapState,
};
use crate::width::char_cols;
use vstd::prelude::*;

verus! {

/// No character of `s` is an escape.
pub open spec fn no_esc(s: Seq<char>) -> bool {
    forall|i: int| 0 <= i < s.len() ==> #[trigger] s[i] != '\x1b'
}

proof fn lemma_sum_concat(a: Seq<char>, b: Seq<char>)
    ensures
        sum_cols(a + b) == sum_cols(a) + sum_cols(b),
    decreases b.len(),
{
    if b.len() == 0 {
        assert(a + b =~= a);
    } else {
        lemma_sum_concat(a, b.drop_last());
        assert((a + b).drop_last() =~= a + b.drop_last());
        assert((a + b).last() == b.last());
    }
}

proof fn lemma_sum_single(c: char)
    ensures
        sum_cols(seq![c]) == char_cols(c),
{
    let s = seq![c];
    assert(s.drop_last() =~= Seq::<char>::empty());
    assert(sum_cols(s.drop_last()) == 0);
    assert(s.last() == c);
}

proof fn lemma_sum_spaces(n: nat)
    requires
        char_cols(' ') == 1,
    ensures
        sum_cols(spaces(n)) == n,
    decreases n,
{
    if n > 0 {
        lemma_sum_spaces((n - 1) as nat);
        assert(spaces(n).drop_last() =~= spaces((n - 1) as nat));
    }
}

proof fn lemma_visible_plain(s: Seq<char>)
    requires
        no_esc(s),
    ensures
        visible_spec(s) == s,
{
    assert(!has_escape(s)) by {
        if has_escape(s) {
            let j = choose|j: int| 0 <= j < s.len() && escape_len(s, j) > 0;
            assert(s[j] != '\x1b');
        }
    }
    lemma_visible_of_clean(s, 0);
    assert(s.subrange(0, s.len() as int) =~= s);
}

proof fn lemma_pass_tail(y: Seq<char>, j: int)
    requires
        0 <= j <= y.len(),
        forall|k: int| j <= k < y.len() ==> #[trigger] y[k] != '\x1b',
    ensures
        visible_from(y, j) == y.subrange(j, y.len() as int),
    decreases y.len() - j,
{
    if j < y.len() {
        lemma_pass_tail(y, j + 1);
        assert(y.subrange(j, y.len() as int) =~= seq![y[j]] + y.subrange(j + 1, y.len() as int));
    } else {
        assert(y.subrange(j, y.len() as int) =~= Seq::<char>::empty());
    }
}

proof fn lemma_pass_reset(x: Seq<char>, z: Seq<char>, i: int)
    requires
        0 <= i <= x.len(),
        no_esc(x),
        no_esc(z),
    ensures
        visible_from(x + resetter(false) + z, i) == x.subrange(i, x.len() as int) + z,
    decreases x.len() - i,
{
    let y = x + resetter(false) + z;
    if i < x.len() {
        assert(y[i] == x[i]);
        lemma_pass_reset(x, z, i + 1);
        assert(x.subrange(i, x.len() as int) =~= seq![x[i]] + x.subrange(i + 1, x.len() as int));
    } else {
        let n = x.len() as int;
        assert(y[n] == '\x1b' && y[n + 1] == '[' && y[n + 2] == '0' && y[n + 3] == 'm');
        assert(params_end(y, n + 3) == n + 3);
        assert(params_end(y, n + 2) == n + 3);
        assert(escape_len(y, n) == 4);
        assert forall|k: int| n + 4 <= k < y.len() implies #[trigger] y[k] != '\x1b' by {
            assert(y[k] == z[k - n - 4]);
        }
        lemma_pass_tail(y, n + 4);
        assert(y.subrange(n + 4, y.len() as int) =~= z);
        assert(x.subrange(n, n) =~= Seq::<char>::empty());
        assert(Seq::<char>::empty() + z =~= z);
    }
}

proof fn lemma_visible_line(x: Seq<char>, preserve: bool, z: Seq<char>)
    requires
        no_esc(x),
        no_esc(z),
    ensures
        visible_spec(x + resetter(preserve) + z) == x + z,
{
    if preserve {
        assert(x + resetter(preserve) + z =~= x + z);
        lemma_visible_plain(x + z);
    } else {
        let y = x + resetter(false) + z;
        lemma_pass_reset(x, z, 0);
        assert(x.subrange(0, x.len() as int) =~= x);
        lemma_visible_plain(x + z);
        assert(visible_from(y, 0).len() < y.len());
    }
}

/// Every escape in `l` begins a recognised sequence that ends within `l`.
pub open spec fn escapes_whole(l: Seq<char>) -> bool {
    forall|i: int| 0 <= i < l.len() && #[trigger] l[i] == '\x1b' ==> escape_len(l, i) > 0
}

proof fn lemma_line_escapes_whole(x: Seq<char>, preserve: bool, z: Seq<char>)
    requires
        no_esc(x),
        no_esc(z),
    ensures
        escapes_whole(x + resetter(preserve) + z),
{
    let y = x + resetter(preserve) + z;
    let n = x.len() as int;
    let r = resetter(preserve).len() as int;
    assert forall|i: int| 0 <= i < y.len() && #[trigger] y[i] == '\x1b' implies escape_len(y, i)
        > 0 by {
        if i < n {
            assert(y[i] == x[i]);
        } else if i >= n + r {
            assert(y[i] == z[i - n - r]);
        } else {
            assert(!preserve);
            assert(i == n);
            assert(y[n + 1] == '[' && y[n + 2] == '0' && y[n + 3] == 'm');
            assert(params_end(y, n + 3) == n + 3);
            assert(params_end(y, n + 2) == n + 3);
        }
    }
}

proof fn lemma_trunc_plain(s: Seq<char>, i: int, count: int, max: int)
    requires
        0 <= i <= s.len(),
        no_esc(s),
        0 <= count <= max,
    ensures
        no_esc(trunc_from(s, i, count, false, max)),
        count + sum_cols(trunc_from(s, i, count, false, max)) <= max,
    decreases s.len() - i,
{
    let r = trunc_from(s, i, count, false, max);
    if i < s.len() && count + char_cols(s[i]) <= max {
        lemma_trunc_plain(s, i + 1, count + char_cols(s[i]), max);
        let rest = trunc_from(s, i + 1, count + char_cols(s[i]), false, max);
        assert(r == seq![s[i]] + rest);
        lemma_sum_concat(seq![s[i]], rest);
        lemma_sum_single(s[i]);
        assert forall|k: int| 0 <= k < r.len() implies #[trigger] r[k] != '\x1b' by {
            if k > 0 {
                assert(r[k] == rest[k - 1]);
            }
        }
    } else {
        assert(r =~= Seq::<char>::empty());
    }
}

/// The hypotheses on the width table under which the bounds below are stated.
pub open spec fn narrow_fill() -> bool {
    char_cols(' ') == 1 && 0 <= char_cols('\u{2026}') <= 1
}

proof fn lemma_finish_fits(p: WrapParams, prefix: Seq<char>, cur: Seq<char>, pad: bool)
    requires
        narrow_fill(),
        p.force,
        p.width > 0,
        p.width <= usize::MAX,
        no_esc(prefix + cur),
    ensures
        visible_len_spec(finish_line(p, prefix, cur, pad).0) <= p.width,
        escapes_whole(finish_line(p, prefix, cur, pad).0),
{
    let lc = prefix + cur;
    lemma_visible_plain(lc);
    let clip = p.force && visible_len_spec(lc) > p.width;
    let lc2 = if clip {
        truncate_spec(lc, sat_sub(p.width, 1)).push('\u{2026}')
    } else {
        lc
    };
    if clip {
        lemma_trunc_plain(lc, 0, 0, p.width - 1);
        let t = truncate_spec(lc, p.width - 1);
        lemma_sum_concat(t, seq!['\u{2026}']);
        assert(t + seq!['\u{2026}'] =~= lc2);
        lemma_sum_single('\u{2026}');
        assert(no_esc(lc2)) by {
            assert forall|k: int| 0 <= k < lc2.len() implies #[trigger] lc2[k] != '\x1b' by {
                if k < t.len() {
                    assert(lc2[k] == t[k]);
                }
            }
        }
        assert(sum_cols(lc2) <= p.width);
    } else {
        assert(sum_cols(lc) <= p.width || p.width == usize::MAX);
    }
    lemma_visible_plain(lc2);
    let n = sat_sub(p.width, visible_len_spec(lc2) as int) as nat;
    let tail = if pad {
        spaces(n)
    } else {
        Seq::empty()
    };
    lemma_sum_spaces(n);
    assert(sum_cols(Seq::<char>::empty()) == 0);
    assert(no_esc(tail));
    lemma_visible_line(lc2, p.preserve, tail);
    lemma_line_escapes_whole(lc2, p.preserve, tail);
    lemma_sum_concat(lc2, tail);
    lemma_sum_cols_nonneg(lc2);
    let line = finish_line(p, prefix, cur, pad).0;
    assert(line == lc2 + resetter(p.preserve) + tail);
    assert(visible_spec(line) == lc2 + tail);
    assert(sum_cols(visible_spec(line)) == sum_cols(lc2) + sum_cols(tail));
    if p.width < usize::MAX {
        assert(sum_cols(lc2) <= p.width);
        assert(visible_len_spec(lc2) as int == sum_cols(lc2));
        assert(sum_cols(tail) == if pad { p.width - sum_cols(lc2) } else { 0 });
    }
}

proof fn lemma_sgr_codes_plain(s: Seq<char>, i: int)
    requires
        0 <= i <= s.len(),
        no_esc(s),
    ensures
        sgr_codes_from(s, i) == Seq::<Seq<char>>::empty(),
    decreases s.len() - i,
{
    if i < s.len() {
        assert(sgr_len(s, i) == 0);
        lemma_sgr_codes_plain(s, i + 1);
    }
}

proof fn lemma_words_plain(s: Seq<char>, i: int, cur: Seq<char>)
    requires
        0 <= i <= s.len(),
        no_esc(s),
        no_esc(cur),
    ensures
        forall|k: int|
            0 <= k < words_from(s, i, cur).len() ==> no_esc(#[trigger] words_from(s, i, cur)[k]),
    decreases s.len() - i,
{
    let ws = words_from(s, i, cur);
    if i < s.len() {
        assert(s[i] != '\x1b');
        if is_space(s[i]) {
            lemma_space_end(s, i);
            let e = space_end(s, i);
            lemma_words_plain(s, e, Seq::empty());
            if cur.len() > 0 {
                let w = cur + s.subrange(i, e);
                assert(no_esc(w)) by {
                    assert forall|q: int| 0 <= q < w.len() implies #[trigger] w[q] != '\x1b' by {
                        if q >= cur.len() {
                            assert(w[q] == s[i + q - cur.len()]);
                        }
                    }
                }
                let rest = words_from(s, e, Seq::empty());
                assert(ws == seq![w] + rest);
                assert forall|k: int| 0 <= k < ws.len() implies no_esc(#[trigger] ws[k]) by {
                    if k > 0 {
                        assert(ws[k] == rest[k - 1]);
                    }
                }
            } else {
                assert(cur =~= Seq::<char>::empty());
                assert(ws == words_from(s, e, Seq::empty()));
            }
        } else {
            let c2 = cur.push(s[i]);
            assert(no_esc(c2)) by {
                assert forall|q: int| 0 <= q < c2.len() implies #[trigger] c2[q] != '\x1b' by {
                    if q < cur.len() {
                        assert(c2[q] == cur[q]);
                    }
                }
            }
            lemma_words_plain(s, i + 1, c2);
            assert(ws == words_from(s, i + 1, c2));
        }
    } else if cur.len() > 0 {
        assert(ws == seq![cur]);
        assert forall|k: int| 0 <= k < ws.len() implies no_esc(#[trigger] ws[k]) by {
            assert(ws[k] == cur);
        }
    }
}

/// What the wrapper keeps while it reads words without escapes: no style, a line in
/// progress without escapes, and finished lines that fit the width and hold only whole
/// escape sequences.
pub open spec fn wrap_fits(p: WrapParams, st: WrapState) -> bool {
    &&& st.style.len() == 0
    &&& no_esc(st.cur)
    &&& forall|k: int| 0 <= k < st.lines.len() ==> visible_len_spec(#[trigger] st.lines[k]) <= p.width
    &&& forall|k: int| 0 <= k < st.lines.len() ==> escapes_whole(#[trigger] st.lines[k])
}

proof fn lemma_no_esc_concat(a: Seq<char>, b: Seq<char>)
    requires
        no_esc(a),
        no_esc(b),
    ensures
        no_esc(a + b),
{
    assert forall|q: int| 0 <= q < (a + b).len() implies #[trigger] (a + b)[q] != '\x1b' by {
        if q >= a.len() {
            assert((a + b)[q] == b[q - a.len()]);
        }
    }
}

proof fn lemma_wrap_words_fit(p: WrapParams, ws: Seq<Seq<char>>)
    requires
        narrow_fill(),
        p.force,
        0 < p.width <= usize::MAX,
        no_esc(p.first),
        no_esc(p.next),
        forall|k: int| 0 <= k < ws.len() ==> no_esc(#[trigger] ws[k]),
    ensures
        wrap_fits(p, wrap_words(p, ws)),
    decreases ws.len(),
{
    if ws.len() == 0 {
        return;
    }
    lemma_wrap_words_fit(p, ws.drop_last());
    let st = wrap_words(p, ws.drop_last());
    let word = ws.last();
    assert(no_esc(word));
    lemma_sgr_codes_plain(word, 0);
    let e = Seq::<Seq<char>>::empty();
    assert(st.style + e =~= e);
    assert(collapse_spec(e) == e);
    lemma_no_esc_concat(st.cur, word);
    let pre = prefix_for(p, st);
    lemma_no_esc_concat(pre, st.cur);
    lemma_finish_fits(p, pre, st.cur, true);
    assert(concat_all(st.style) =~= Seq::<char>::empty());
    let fresh = spaces(p.indent) + concat_all(st.style) + word;
    assert(spaces(p.indent) + concat_all(st.style) =~= spaces(p.indent));
    lemma_no_esc_concat(spaces(p.indent), word);
    let nx = wrap_words(p, ws);
    assert(nx == wrap_step(p, st, word));
    assert forall|k: int| 0 <= k < nx.lines.len() implies visible_len_spec(#[trigger] nx.lines[k])
        <= p.width && escapes_whole(nx.lines[k]) by {
        if k < st.lines.len() {
            assert(nx.lines[k] == st.lines[k]);
        }
    }
}

/// Wrapping text without escape sequences, under prefixes without them, yields lines
/// whose every escape begins a sequence that ends in the same line; with clipping on
/// and a positive width each line also fits the width, provided a space takes one
/// column and the ellipsis at most one.
pub proof fn lemma_wrap_lines_fit(text: Seq<char>, p: WrapParams)
    requires
        narrow_fill(),
        p.force,
        0 < p.width <= usize::MAX,
        no_esc(text),
        no_esc(p.first),
        no_esc(p.next),
    ensures
        forall|k: int|
            0 <= k < text_wrap_spec(text, p).0.len() ==> visible_len_spec(
                #[trigger] text_wrap_spec(text, p).0[k],
            ) <= p.width && escapes_whole(text_wrap_spec(text, p).0[k]),
{
    let words = split_spec(text);
    if words.len() == 0 {
        return;
    }
    lemma_words_plain(text, 0, Seq::empty());
    let ws = words.push(Seq::empty());
    assert forall|k: int| 0 <= k < ws.len() implies no_esc(#[trigger] ws[k]) by {
        if k < words.len() {
            assert(ws[k] == words[k]);
        }
    }
    lemma_wrap_words_fit(p, ws);
    let st = wrap_words(p, ws);
    let pre = prefix_for(p, st);
    lemma_no_esc_concat(pre, st.cur);
    lemma_finish_fits(p, pre, st.cur, false);
    let out = text_wrap_spec(text, p).0;
    assert forall|k: int| 0 <= k < out.len() implies visible_len_spec(#[trigger] out[k])
        <= p.width && escapes_whole(out[k]) by {
        if k < st.lines.len() {
            assert(out[k] == st.lines[k]);
        }
    }
}

} // verus!
