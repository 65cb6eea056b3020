//! A simple wrapper that carries active SGR codes over line breaks.
use crate::chars::{chars_of, push_all, string_of};
use crate::scan::{is_ansi_code, segments, split_up, views};
use crate::sgr::{parse_sgr_params, sgr_params};
use crate::text::{concat_all, concat_strings};
use crate::width::{str_columns, str_width};
use vstd::prelude::*;

verus! {

/// Progress of a simple wrap: finished lines, the current line, its width so far
/// (kept at `usize::MAX` past that) and the codes active since the last reset.
pub struct SimpleState {
    pub lines: Seq<Seq<char>>,
    pub cur: Seq<char>,
    pub cw: int,
    pub active: Seq<Seq<char>>,
}

pub open spec fn reset_seq() -> Seq<char> {
    seq!['\x1b', '[', '0', 'm']
}

/// The first index at or after `j` holding a space, or the length.
pub open spec fn blank_end(s: Seq<char>, j: int) -> int
    decreases s.len() - j,
{
    if j < 0 || j >= s.len() || s[j] == ' ' {
        j
    } else {
        blank_end(s, j + 1)
    }
}

/// One piece of text placed: when the line already has width and the piece would
/// pass `width`, the line is finished (with a reset when codes are active) and a new
/// one starts with the active codes.
pub open spec fn piece_step(st: SimpleState, piece: Seq<char>, width: int) -> SimpleState {
    let ww = str_columns(piece) as int;
    let broke = st.cw + ww > width && st.cw > 0;
    let lines = if broke {
        st.lines.push(
            st.cur + (if st.active.len() > 0 {
                reset_seq()
            } else {
                Seq::empty()
            }),
        )
    } else {
        st.lines
    };
    let cur = if broke {
        concat_all(st.active)
    } else {
        st.cur
    };
    let base = if broke {
        0
    } else {
        st.cw
    };
    let cw = if base + ww > usize::MAX {
        usize::MAX as int
    } else {
        base + ww
    };
    SimpleState { lines, cur: cur + piece, cw, active: st.active }
}

/// Places the pieces of `s` from `i` on, each ending after a space (the last one
/// possibly without).
pub open spec fn pieces_from(st: SimpleState, s: Seq<char>, i: int, width: int) -> SimpleState
    decreases s.len() - i,
{
    if i < 0 || i >= s.len() {
        st
    } else {
        let e = blank_end(s, i);
        if i <= e && e < s.len() {
            pieces_from(piece_step(st, s.subrange(i, e + 1), width), s, e + 1, width)
        } else {
            piece_step(st, s.subrange(i, s.len() as int), width)
        }
    }
}

pub open spec fn starts_csi(seg: Seq<char>) -> bool {
    seg.len() >= 2 && seg[0] == '\x1b' && seg[1] == '['
}

/// One segment: a control sequence is copied and tracked (a 0 among its parameters
/// clears the active codes); text is placed piece by piece.
pub open spec fn segment_step(st: SimpleState, seg: Seq<char>, width: int) -> SimpleState {
    if starts_csi(seg) {
        SimpleState {
            cur: st.cur + seg,
            active: if sgr_params(seg).contains(0u32) {
                Seq::empty()
            } else {
                st.active.push(seg)
            },
            ..st
        }
    } else {
        pieces_from(st, seg, 0, width)
    }
}

pub open spec fn segments_fold(segs: Seq<Seq<char>>, width: int) -> SimpleState
    decreases segs.len(),
{
    if segs.len() == 0 {
        SimpleState { lines: Seq::empty(), cur: Seq::empty(), cw: 0, active: Seq::empty() }
    } else {
        segment_step(segments_fold(segs.drop_last(), width), segs.last(), width)
    }
}

pub open spec fn wrap_ansi_spec(text: Seq<char>, width: int) -> Seq<Seq<char>> {
    if width == 0 {
        seq![text]
    } else {
        let st = segments_fold(segments(text), width);
        if st.cur.len() > 0 || st.lines.len() == 0 {
            st.lines.push(st.cur)
        } else {
            st.lines
        }
    }
}

proof fn lemma_blank_end(s: Seq<char>, j: int)
    requires
        0 <= j <= s.len(),
    ensures
        j <= blank_end(s, j) <= s.len(),
    decreases s.len() - j,
{
    if j < s.len() && s[j] != ' ' {
        lemma_blank_end(s, j + 1);
    }
}

spec fn state_of(lines: Seq<String>, cur: Seq<char>, cw: usize, active: Seq<String>) -> SimpleState {
    SimpleState { lines: views(lines), cur, cw: cw as int, active: views(active) }
}

fn piece_step_exec(
    lines: &mut Vec<String>,
    cur: &mut Vec<char>,
    cw: &mut usize,
    active: &Vec<String>,
    piece: &Vec<char>,
    width: usize,
)
    ensures
        state_of(final(lines)@, final(cur)@, *final(cw), active@) == piece_step(
            state_of(old(lines)@, old(cur)@, *old(cw), active@),
            piece@,
            width as int,
        ),
{
    let ww = width_of_chars(piece);
    let broke = *cw > 0 && (*cw > width || ww > width - *cw);
    if broke {
        let ghost before = lines@;
        let mut done: Vec<char> = Vec::new();
        push_all(&mut done, cur);
        if active.len() > 0 {
            done.push('\x1b');
            done.push('[');
            done.push('0');
            done.push('m');
        }
        assert(done@ =~= old(cur)@ + (if views(active@).len() > 0 {
            reset_seq()
        } else {
            Seq::empty()
        }));
        lines.push(string_of(&done));
        assert(views(lines@) =~= views(before).push(done@));
        let mut fresh: Vec<char> = Vec::new();
        concat_strings(&mut fresh, active);
        assert(fresh@ =~= concat_all(views(active@)));
        *cur = fresh;
        *cw = 0;
    }
    push_all(cur, piece);
    if ww > usize::MAX - *cw {
        *cw = usize::MAX;
    } else {
        *cw = *cw + ww;
    }
}

fn width_of_chars(v: &Vec<char>) -> (r: usize)
    ensures
        r == str_columns(v@),
{
    let st = string_of(v);
    str_width(st.as_str())
}

/// Wraps `text` at spaces to `width` columns, copying escape codes through and
/// reopening the active ones on each new line. Width 0 gives the text whole.
pub fn wrap_ansi(text: &str, width: usize) -> (r: Vec<String>)
    ensures
        views(r@) == wrap_ansi_spec(text@, width as int),
{
    if width == 0 {
        let mut one: Vec<String> = Vec::new();
        one.push(text.to_owned());
        assert(views(one@) =~= seq![text@]);
        return one;
    }
    let segs = split_up(text);
    let ghost ss = views(segs@);
    let mut lines: Vec<String> = Vec::new();
    let mut cur: Vec<char> = Vec::new();
    let mut cw: usize = 0;
    let mut active: Vec<String> = Vec::new();
    let mut k: usize = 0;
    assert(ss.take(0) =~= Seq::<Seq<char>>::empty());
    assert(views(lines@) =~= Seq::<Seq<char>>::empty());
    assert(views(active@) =~= Seq::<Seq<char>>::empty());
    assert(cur@ =~= Seq::<char>::empty());
    assert(state_of(lines@, cur@, cw, active@) == segments_fold(ss.take(0), width as int));
    while k < segs.len()
        invariant
            k <= segs@.len(),
            ss == views(segs@),
            ss == segments(text@),
            state_of(lines@, cur@, cw, active@) == segments_fold(ss.take(k as int), width as int),
        decreases segs@.len() - k,
    {
        let seg = &segs[k];
        assert(ss.take(k + 1).drop_last() =~= ss.take(k as int));
        assert(ss.take(k + 1).last() == seg@);
        let ghost st0 = state_of(lines@, cur@, cw, active@);
        if is_ansi_code(seg.as_str()) {
            let p = parse_sgr_params(seg.as_str());
            let mut has_zero = false;
            let mut q: usize = 0;
            while q < p.len()
                invariant
                    q <= p@.len(),
                    has_zero == p@.take(q as int).contains(0u32),
                decreases p@.len() - q,
            {
                assert(p@.take(q + 1) =~= p@.take(q as int).push(p@[q as int]));
                if p[q] == 0 {
                    assert(p@.take(q + 1)[q as int] == 0u32);
                    has_zero = true;
                } else {
                    assert(!p@.take(q + 1).contains(0u32) <== !p@.take(q as int).contains(0u32))
                        by {
                        if p@.take(q + 1).contains(0u32) {
                            let x = choose|x: int| 0 <= x < q + 1 && #[trigger] p@.take(q + 1)[x] == 0u32;
                            if x < q {
                                assert(p@.take(q as int)[x] == 0u32);
                            }
                        }
                    }
                    assert(p@.take(q as int).contains(0u32) ==> p@.take(q + 1).contains(0u32))
                        by {
                        if p@.take(q as int).contains(0u32) {
                            let x = choose|x: int| 0 <= x < q && #[trigger] p@.take(q as int)[x] == 0u32;
                            assert(p@.take(q + 1)[x] == 0u32);
                        }
                    }
                }
                q = q + 1;
            }
            assert(p@.take(p@.len() as int) =~= p@);
            let sc = chars_of(seg.as_str());
            push_all(&mut cur, &sc);
            if has_zero {
                active = Vec::new();
                assert(views(active@) =~= Seq::<Seq<char>>::empty());
            } else {
                let ghost before = active@;
                active.push(seg.clone());
                assert(views(active@) =~= views(before).push(seg@));
            }
            assert(state_of(lines@, cur@, cw, active@) == segment_step(st0, seg@, width as int));
        } else {
            let s = chars_of(seg.as_str());
            let mut i: usize = 0;
            while i < s.len()
                invariant
                    i <= s@.len(),
                    s@ == seg@,
                    pieces_from(state_of(lines@, cur@, cw, active@), s@, i as int, width as int)
                        == pieces_from(st0, s@, 0, width as int),
                decreases s@.len() - i,
            {
                proof {
                    lemma_blank_end(s@, i as int);
                }
                let mut e = i;
                while e < s.len() && s[e] != ' '
                    invariant
                        i <= e <= s@.len(),
                        blank_end(s@, e as int) == blank_end(s@, i as int),
                    decreases s@.len() - e,
                {
                    e = e + 1;
                }
                let stop = if e < s.len() {
                    e + 1
                } else {
                    e
                };
                let mut piece: Vec<char> = Vec::new();
                let mut q = i;
                while q < stop
                    invariant
                        i <= q <= stop <= s@.len(),
                        piece@ == s@.subrange(i as int, q as int),
                    decreases stop - q,
                {
                    piece.push(s[q]);
                    q = q + 1;
                    assert(piece@ =~= s@.subrange(i as int, q as int));
                }
                piece_step_exec(&mut lines, &mut cur, &mut cw, &active, &piece, width);
                i = stop;
            }
        }
        k = k + 1;
    }
    assert(ss.take(segs@.len() as int) =~= ss);
    if cur.len() > 0 || lines.len() == 0 {
        let ghost before = lines@;
        lines.push(string_of(&cur));
        assert(views(lines@) =~= views(before).push(cur@));
    }
    lines
}

} // verus!
