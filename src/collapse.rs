//! Reducing a history of SGR codes to a minimal equivalent list.
use crate::chars::string_of;
use crate::scan::views;
use crate::sgr::{parse_sgr_params, sgr_params};
use vstd::prelude::*;

verus! {

/// The style that a run of SGR codes leaves in effect.
pub struct StyleModel {
    pub bold: bool,
    pub dim: bool,
    pub italic: bool,
    pub underline: bool,
    pub strike: bool,
    pub fg: Option<Seq<char>>,
    pub bg: Option<Seq<char>>,
    pub pass: Seq<Seq<char>>,
}

pub open spec fn plain_style() -> StyleModel {
    StyleModel {
        bold: false,
        dim: false,
        italic: false,
        underline: false,
        strike: false,
        fg: None,
        bg: None,
        pass: Seq::empty(),
    }
}

/// A code whose parameters are exactly `[0]`: a full reset.
pub open spec fn is_reset(code: Seq<char>) -> bool {
    sgr_params(code) == seq![0u32]
}

/// Index of the last full reset in `codes`, or -1.
pub open spec fn last_reset(codes: Seq<Seq<char>>) -> int
    decreases codes.len(),
{
    if codes.len() == 0 {
        -1
    } else if is_reset(codes.last()) {
        codes.len() - 1
    } else {
        last_reset(codes.drop_last())
    }
}

pub open spec fn is_legacy_fg(f: u32) -> bool {
    (30 <= f && f <= 37) || (90 <= f && f <= 97)
}

pub open spec fn is_legacy_bg(f: u32) -> bool {
    (40 <= f && f <= 47) || (100 <= f && f <= 107)
}

/// The effect of one code, chosen by its first parameter.
pub open spec fn style_step(st: StyleModel, code: Seq<char>) -> StyleModel {
    let p = sgr_params(code);
    if p.len() == 0 {
        st
    } else {
        let f = p[0];
        if f == 0 {
            st
        } else if f == 1 {
            StyleModel { bold: true, ..st }
        } else if f == 2 {
            StyleModel { dim: true, ..st }
        } else if f == 3 {
            StyleModel { italic: true, ..st }
        } else if f == 4 {
            StyleModel { underline: true, ..st }
        } else if f == 9 {
            StyleModel { strike: true, ..st }
        } else if f == 22 {
            StyleModel { bold: false, dim: false, ..st }
        } else if f == 23 {
            StyleModel { italic: false, ..st }
        } else if f == 24 {
            StyleModel { underline: false, ..st }
        } else if f == 29 {
            StyleModel { strike: false, ..st }
        } else if f == 38 || is_legacy_fg(f) {
            StyleModel { fg: Some(code), ..st }
        } else if f == 39 {
            StyleModel { fg: None, ..st }
        } else if f == 48 || is_legacy_bg(f) {
            StyleModel { bg: Some(code), ..st }
        } else if f == 49 {
            StyleModel { bg: None, ..st }
        } else {
            StyleModel { pass: st.pass.push(code), ..st }
        }
    }
}

/// The style after applying `codes` in order to `st`.
pub open spec fn apply_onto(st: StyleModel, codes: Seq<Seq<char>>) -> StyleModel
    decreases codes.len(),
{
    if codes.len() == 0 {
        st
    } else {
        style_step(apply_onto(st, codes.drop_last()), codes.last())
    }
}

/// The style after applying `codes` in order to the plain style.
pub open spec fn apply_codes(codes: Seq<Seq<char>>) -> StyleModel {
    apply_onto(plain_style(), codes)
}

/// Adds attribute digit `d` to a `;`-separated list when `on`.
pub open spec fn add_attr(b: Seq<char>, on: bool, d: char) -> Seq<char> {
    if !on {
        b
    } else if b.len() == 0 {
        seq![d]
    } else {
        b + seq![';', d]
    }
}

/// The numbers of the active attributes, in the order bold, dim, italic, underline,
/// strikeout, joined by `;`.
pub open spec fn attr_body(st: StyleModel) -> Seq<char> {
    add_attr(
        add_attr(
            add_attr(add_attr(add_attr(Seq::empty(), st.bold, '1'), st.dim, '2'), st.italic, '3'),
            st.underline,
            '4',
        ),
        st.strike,
        '9',
    )
}

pub open spec fn attr_code(st: StyleModel) -> Seq<char> {
    seq!['\x1b', '['] + attr_body(st) + seq!['m']
}

pub open spec fn opt_seq(o: Option<Seq<char>>) -> Seq<Seq<char>> {
    match o {
        Some(c) => seq![c],
        None => Seq::empty(),
    }
}

/// The minimal code list for a style: one combined attribute code (when any attribute
/// is on), the foreground, the background, then the passthrough codes.
pub open spec fn emit_style(st: StyleModel) -> Seq<Seq<char>> {
    (if attr_body(st).len() > 0 {
        seq![attr_code(st)]
    } else {
        Seq::empty()
    }) + opt_seq(st.fg) + opt_seq(st.bg) + st.pass
}

/// The codes after the last full reset (all of them when there is none).
pub open spec fn effective_codes(codes: Seq<Seq<char>>) -> Seq<Seq<char>> {
    codes.skip(last_reset(codes) + 1)
}

pub open spec fn collapse_spec(codes: Seq<Seq<char>>) -> Seq<Seq<char>> {
    if codes.len() == 0 {
        Seq::empty()
    } else {
        emit_style(apply_codes(effective_codes(codes)))
    }
}

proof fn lemma_last_reset_range(codes: Seq<Seq<char>>)
    ensures
        -1 <= last_reset(codes) < codes.len(),
    decreases codes.len(),
{
    if codes.len() > 0 {
        lemma_last_reset_range(codes.drop_last());
    }
}

fn add_attr_exec(b: &mut Vec<char>, on: bool, d: char)
    ensures
        final(b)@ == add_attr(old(b)@, on, d),
{
    if on {
        if b.len() == 0 {
            b.push(d);
            assert(b@ =~= seq![d]);
        } else {
            b.push(';');
            b.push(d);
            assert(b@ =~= old(b)@ + seq![';', d]);
        }
    }
}

/// Reduces codes applied in order to a minimal list with the same effect: everything
/// up to the last full reset is dropped, each attribute, foreground and background
/// keeps only its latest state, and unknown codes pass through in order.
pub fn ansi_collapse(code_list: &[String], _inp: &str) -> (r: Vec<String>)
    ensures
        views(r@) == collapse_spec(views(code_list@)),
{
    let ghost codes = views(code_list@);
    if code_list.len() == 0 {
        return Vec::new();
    }
    let mut start: usize = 0;
    let mut j: usize = 0;
    while j < code_list.len()
        invariant
            j <= code_list@.len(),
            codes == views(code_list@),
            start as int == last_reset(codes.take(j as int)) + 1,
        decreases code_list@.len() - j,
    {
        let p = parse_sgr_params(code_list[j].as_str());
        assert(codes.take(j + 1).drop_last() =~= codes.take(j as int));
        assert(codes.take(j + 1).last() == code_list@[j as int]@);
        if p.len() == 1 && p[0] == 0 {
            assert(p@ =~= seq![0u32]);
            start = j + 1;
        } else {
            assert(p@ != seq![0u32]);
        }
        j = j + 1;
    }
    assert(codes.take(code_list@.len() as int) =~= codes);
    proof {
        lemma_last_reset_range(codes);
    }
    let ghost eff = effective_codes(codes);
    let mut bold = false;
    let mut dim = false;
    let mut italic = false;
    let mut underline = false;
    let mut strike = false;
    let mut fg: Option<String> = None;
    let mut bg: Option<String> = None;
    let mut pass: Vec<String> = Vec::new();
    let mut k: usize = start;
    assert(eff.take(0) =~= Seq::<Seq<char>>::empty());
    while k < code_list.len()
        invariant
            start <= k <= code_list@.len(),
            codes == views(code_list@),
            eff == codes.skip(start as int),
            ({
                let st = apply_codes(eff.take(k - start));
                &&& st.bold == bold
                &&& st.dim == dim
                &&& st.italic == italic
                &&& st.underline == underline
                &&& st.strike == strike
                &&& st.fg == match fg {
                    Some(s) => Some(s@),
                    None => None,
                }
                &&& st.bg == match bg {
                    Some(s) => Some(s@),
                    None => None,
                }
                &&& st.pass == views(pass@)
            }),
        decreases code_list@.len() - k,
    {
        let code = &code_list[k];
        let p = parse_sgr_params(code.as_str());
        assert(eff.take(k + 1 - start).drop_last() =~= eff.take(k - start));
        assert(eff.take(k + 1 - start).last() == code@);
        if p.len() > 0 {
            let f = p[0];
            if f == 0 {
            } else if f == 1 {
                bold = true;
            } else if f == 2 {
                dim = true;
            } else if f == 3 {
                italic = true;
            } else if f == 4 {
                underline = true;
            } else if f == 9 {
                strike = true;
            } else if f == 22 {
                bold = false;
                dim = false;
            } else if f == 23 {
                italic = false;
            } else if f == 24 {
                underline = false;
            } else if f == 29 {
                strike = false;
            } else if f == 38 || (30 <= f && f <= 37) || (90 <= f && f <= 97) {
                fg = Some(code.clone());
            } else if f == 39 {
                fg = None;
            } else if f == 48 || (40 <= f && f <= 47) || (100 <= f && f <= 107) {
                bg = Some(code.clone());
            } else if f == 49 {
                bg = None;
            } else {
                pass.push(code.clone());
                assert(views(pass@) =~= views(pass@.drop_last()).push(code@));
            }
        }
        k = k + 1;
    }
    assert(eff.take(code_list@.len() - start) =~= eff);
    let ghost st = apply_codes(eff);
    let mut body: Vec<char> = Vec::new();
    add_attr_exec(&mut body, bold, '1');
    add_attr_exec(&mut body, dim, '2');
    add_attr_exec(&mut body, italic, '3');
    add_attr_exec(&mut body, underline, '4');
    add_attr_exec(&mut body, strike, '9');
    assert(body@ == attr_body(st));
    let mut result: Vec<String> = Vec::new();
    if body.len() > 0 {
        let mut code: Vec<char> = Vec::new();
        code.push('\x1b');
        code.push('[');
        crate::chars::push_all(&mut code, &body);
        code.push('m');
        assert(code@ =~= attr_code(st));
        result.push(string_of(&code));
    }
    let ghost head = views(result@);
    assert(head =~= (if attr_body(st).len() > 0 {
        seq![attr_code(st)]
    } else {
        Seq::empty()
    }));
    match fg {
        Some(c) => result.push(c),
        None => {},
    }
    assert(views(result@) =~= head + opt_seq(st.fg));
    let ghost head2 = views(result@);
    match bg {
        Some(c) => result.push(c),
        None => {},
    }
    assert(views(result@) =~= head2 + opt_seq(st.bg));
    let ghost head3 = views(result@);
    let mut q: usize = 0;
    while q < pass.len()
        invariant
            q <= pass@.len(),
            views(result@) == head3 + views(pass@).take(q as int),
        decreases pass@.len() - q,
    {
        let c = pass[q].clone();
        assert(c@ == views(pass@)[q as int]);
        let ghost before = result@;
        result.push(c);
        assert(views(result@) =~= views(before).push(c@));
        assert(views(pass@).take(q + 1) =~= views(pass@).take(q as int).push(c@));
        assert(views(result@) =~= head3 + views(pass@).take(q + 1));
        q = q + 1;
    }
    assert(views(pass@).take(pass@.len() as int) =~= views(pass@));
    result
}

pub open spec fn is_fg_code(c: Seq<char>) -> bool {
    sgr_params(c).len() > 0 && (sgr_params(c)[0] == 38 || is_legacy_fg(sgr_params(c)[0]))
}

pub open spec fn is_bg_code(c: Seq<char>) -> bool {
    sgr_params(c).len() > 0 && (sgr_params(c)[0] == 48 || is_legacy_bg(sgr_params(c)[0]))
}

/// A code that the collapser neither understands nor drops.
pub open spec fn is_pass_code(c: Seq<char>) -> bool {
    let p = sgr_params(c);
    &&& p.len() > 0
    &&& p[0] != 0 && p[0] != 1 && p[0] != 2 && p[0] != 3 && p[0] != 4 && p[0] != 9
    &&& p[0] != 22 && p[0] != 23 && p[0] != 24 && p[0] != 29
    &&& p[0] != 38 && p[0] != 39 && p[0] != 48 && p[0] != 49
    &&& !is_legacy_fg(p[0]) && !is_legacy_bg(p[0])
}

/// Every code a style holds is of the kind of its slot.
pub open spec fn style_wf(st: StyleModel) -> bool {
    &&& (st.fg matches Some(c) ==> is_fg_code(c))
    &&& (st.bg matches Some(c) ==> is_bg_code(c))
    &&& forall|i: int| 0 <= i < st.pass.len() ==> is_pass_code(#[trigger] st.pass[i])
}

proof fn lemma_apply_wf(st: StyleModel, codes: Seq<Seq<char>>)
    requires
        style_wf(st),
    ensures
        style_wf(apply_onto(st, codes)),
    decreases codes.len(),
{
    if codes.len() > 0 {
        lemma_apply_wf(st, codes.drop_last());
        let s0 = apply_onto(st, codes.drop_last());
        let s1 = style_step(s0, codes.last());
        assert forall|i: int| 0 <= i < s1.pass.len() implies is_pass_code(#[trigger] s1.pass[i]) by {
            if i < s0.pass.len() {
                assert(s1.pass[i] == s0.pass[i]);
            }
        }
    }
}

proof fn lemma_apply_concat(st: StyleModel, xs: Seq<Seq<char>>, ys: Seq<Seq<char>>)
    ensures
        apply_onto(st, xs + ys) == apply_onto(apply_onto(st, xs), ys),
    decreases ys.len(),
{
    if ys.len() == 0 {
        assert(xs + ys =~= xs);
    } else {
        lemma_apply_concat(st, xs, ys.drop_last());
        assert((xs + ys).drop_last() =~= xs + ys.drop_last());
    }
}

proof fn lemma_apply_pass(st: StyleModel, ps: Seq<Seq<char>>)
    requires
        forall|i: int| 0 <= i < ps.len() ==> is_pass_code(#[trigger] ps[i]),
    ensures
        apply_onto(st, ps) == (StyleModel { pass: st.pass + ps, ..st }),
    decreases ps.len(),
{
    if ps.len() == 0 {
        assert(st.pass + ps =~= st.pass);
    } else {
        lemma_apply_pass(st, ps.drop_last());
        assert(is_pass_code(ps[ps.len() - 1]));
        assert(st.pass + ps =~= (st.pass + ps.drop_last()).push(ps.last()));
    }
}

proof fn lemma_one_digit_params(d: char)
    requires
        d == '1' || d == '2' || d == '3' || d == '4' || d == '9',
    ensures
        sgr_params(seq!['\x1b', '[', d, 'm']) == seq![(d as u32 - '0' as u32) as u32],
{
    let c = seq!['\x1b', '[', d, 'm'];
    assert(c.skip(2) =~= seq![d, 'm']);
    assert(crate::sgr::strip_csi_prefix(seq![d, 'm']) == seq![d, 'm']);
    assert(crate::sgr::strip_csi_prefix(c) == seq![d, 'm']);
    assert(seq![d, 'm'].drop_last() =~= seq![d]);
    assert(crate::sgr::trim_end_char(seq![d], 'm') == seq![d]);
    assert(crate::sgr::trim_end_char(seq![d], 'K') == seq![d]);
    assert(crate::sgr::sgr_body(c) == seq![d]);
    assert(seq![d].drop_last() =~= Seq::<char>::empty());
    let e = Seq::<char>::empty();
    assert(crate::sgr::split_semis(e) == seq![e]);
    assert(seq![e].update(0, e.push(d)) =~= seq![seq![d]]);
    assert(e.push(d) =~= seq![d]);
    assert(crate::sgr::split_semis(seq![d]) == seq![seq![d]]);
    assert(seq![d].drop_last() =~= e);
    assert(crate::sgr::digits_value(e) == 0);
    assert(crate::sgr::digits_value(seq![d]) == crate::sgr::digit_value(d));
    assert(crate::sgr::unsigned_digits(seq![d]) == seq![d]);
    assert(crate::sgr::all_digits(seq![d]));
    assert(crate::sgr::parse_u32(seq![d]) == Some((d as u32 - '0' as u32) as u32));
    let toks = seq![seq![d]];
    assert(toks.drop_last() =~= Seq::<Seq<char>>::empty());
    assert(toks.last() == seq![d]);
    assert(crate::sgr::parse_all(Seq::<Seq<char>>::empty()) == Seq::<u32>::empty());
    assert(Seq::<u32>::empty().push((d as u32 - '0' as u32) as u32) =~= seq![
        (d as u32 - '0' as u32) as u32,
    ]);
    assert(crate::sgr::parse_all(toks) == seq![(d as u32 - '0' as u32) as u32]);
}

proof fn lemma_reapply_one(st: StyleModel, d: char)
    requires
        d == '1' || d == '2' || d == '3' || d == '4' || d == '9',
        attr_body(st) == seq![d],
    ensures
        apply_onto(plain_style(), seq![attr_code(st)]) == style_step(plain_style(), attr_code(st)),
        sgr_params(attr_code(st)) == seq![(d as u32 - '0' as u32) as u32],
        !is_reset(attr_code(st)),
{
    assert(attr_code(st) =~= seq!['\x1b', '[', d, 'm']);
    lemma_one_digit_params(d);
    let one = seq![attr_code(st)];
    assert(one.drop_last() =~= Seq::<Seq<char>>::empty());
    assert(one.last() == attr_code(st));
    assert(apply_onto(plain_style(), Seq::<Seq<char>>::empty()) == plain_style());
    assert(sgr_params(attr_code(st))[0] != 0u32);
}

/// The attribute part of the output, re-applied to the plain style, restores the
/// attributes of a style that has at most one of them.
proof fn lemma_attr_reapply(st: StyleModel)
    requires
        attr_body(st).len() <= 1,
    ensures
        ({
            let a = if attr_body(st).len() > 0 {
                seq![attr_code(st)]
            } else {
                Seq::empty()
            };
            apply_onto(plain_style(), a) == (StyleModel {
                bold: st.bold,
                dim: st.dim,
                italic: st.italic,
                underline: st.underline,
                strike: st.strike,
                ..plain_style()
            })
        }),
        attr_body(st).len() > 0 ==> !is_reset(attr_code(st)),
{
    let e = Seq::<char>::empty();
    let b1 = add_attr(e, st.bold, '1');
    let b2 = add_attr(b1, st.dim, '2');
    let b3 = add_attr(b2, st.italic, '3');
    let b4 = add_attr(b3, st.underline, '4');
    let b5 = add_attr(b4, st.strike, '9');
    assert(attr_body(st) == b5);
    assert(b1.len() <= b2.len() <= b3.len() <= b4.len() <= b5.len());
    if st.bold {
        assert(!st.dim && !st.italic && !st.underline && !st.strike);
        assert(b5 =~= seq!['1']);
        lemma_reapply_one(st, '1');
    } else if st.dim {
        assert(!st.italic && !st.underline && !st.strike);
        assert(b5 =~= seq!['2']);
        lemma_reapply_one(st, '2');
    } else if st.italic {
        assert(!st.underline && !st.strike);
        assert(b5 =~= seq!['3']);
        lemma_reapply_one(st, '3');
    } else if st.underline {
        assert(!st.strike);
        assert(b5 =~= seq!['4']);
        lemma_reapply_one(st, '4');
    } else if st.strike {
        assert(b5 =~= seq!['9']);
        lemma_reapply_one(st, '9');
    } else {
        assert(b5 =~= e);
    }
}

/// Collapsing a collapsed list changes nothing, provided at most one of bold, dim,
/// italic, underline and strikeout is left on. (With two of them the combined code,
/// such as `ESC [1;3m`, is read back by its first number alone.)
pub proof fn lemma_collapse_idempotent(codes: Seq<Seq<char>>)
    requires
        attr_body(apply_codes(effective_codes(codes))).len() <= 1,
    ensures
        collapse_spec(collapse_spec(codes)) == collapse_spec(codes),
{
    if codes.len() == 0 {
        return;
    }
    let st = apply_codes(effective_codes(codes));
    lemma_apply_wf(plain_style(), effective_codes(codes));
    let a = if attr_body(st).len() > 0 {
        seq![attr_code(st)]
    } else {
        Seq::empty()
    };
    let f = opt_seq(st.fg);
    let b = opt_seq(st.bg);
    let out = collapse_spec(codes);
    assert(out == a + f + b + st.pass);
    if out.len() == 0 {
        return;
    }
    lemma_attr_reapply(st);
    // no element of `out` is a full reset
    assert forall|i: int| 0 <= i < out.len() implies !is_reset(#[trigger] out[i]) by {
        if i < a.len() {
            assert(out[i] == attr_code(st));
        } else {
            if i < a.len() + f.len() {
                assert(out[i] == st.fg->0);
                assert(is_fg_code(out[i]));
            } else if i < a.len() + f.len() + b.len() {
                assert(out[i] == st.bg->0);
                assert(is_bg_code(out[i]));
            } else {
                assert(out[i] == st.pass[i - a.len() - f.len() - b.len()]);
                assert(is_pass_code(out[i]));
            }
            assert(sgr_params(out[i]).len() > 0 && sgr_params(out[i])[0] != 0u32);
            assert(sgr_params(out[i]) != seq![0u32]) by {
                if sgr_params(out[i]) == seq![0u32] {
                    assert(sgr_params(out[i])[0] == 0u32);
                }
            }
        }
    }
    lemma_no_reset(out);
    assert(effective_codes(out) =~= out);
    // re-apply piece by piece
    let s_a = apply_onto(plain_style(), a);
    lemma_apply_concat(plain_style(), a, f);
    lemma_apply_concat(plain_style(), a + f, b);
    lemma_apply_concat(plain_style(), a + f + b, st.pass);
    let s_f = apply_onto(s_a, f);
    assert(s_f == StyleModel { fg: st.fg, ..s_a }) by {
        if f.len() > 0 {
            assert(f.drop_last() =~= Seq::<Seq<char>>::empty());
            assert(f.last() == st.fg->0);
            assert(is_fg_code(st.fg->0));
            assert(apply_onto(s_a, Seq::<Seq<char>>::empty()) == s_a);
        } else {
            assert(f =~= Seq::<Seq<char>>::empty());
        }
    }
    let s_b = apply_onto(s_f, b);
    assert(s_b == StyleModel { bg: st.bg, ..s_f }) by {
        if b.len() > 0 {
            assert(b.drop_last() =~= Seq::<Seq<char>>::empty());
            assert(b.last() == st.bg->0);
            assert(is_bg_code(st.bg->0));
            assert(apply_onto(s_f, Seq::<Seq<char>>::empty()) == s_f);
        } else {
            assert(b =~= Seq::<Seq<char>>::empty());
        }
    }
    lemma_apply_pass(s_b, st.pass);
    assert(apply_onto(s_b, st.pass).pass =~= st.pass);
    assert(apply_codes(out) == st);
}

proof fn lemma_no_reset(codes: Seq<Seq<char>>)
    requires
        forall|i: int| 0 <= i < codes.len() ==> !is_reset(#[trigger] codes[i]),
    ensures
        last_reset(codes) == -1,
    decreases codes.len(),
{
    if codes.len() > 0 {
        assert(!is_reset(codes[codes.len() - 1]));
        lemma_no_reset(codes.drop_last());
    }
}

} // verus!
