//! A wire shape as a sequence of pieces: fixed literals and typed values.
//!
//! Every message body is a fixed alternation of literal key text and
//! values (quoted text, integers, decimal quantities, truth words). The
//! walker below reads one such alternation and is exact: it succeeds with
//! the unique values the payload carries, or says that no value assignment
//! fits.

use vstd::prelude::*;
use crate::model::Decimal;
use crate::scan::{
    dec_at, dec_full_rep, expect_lit, int_at, int_rep, is_digit, lemma_dec_at_unique,
    lemma_glue_two, lemma_int_at_unique, lemma_split_two, lemma_text_at_parts, lemma_text_at_unique, parse_dec,
    parse_int, parse_text, text_at, text_rep, wf_decimal, wf_text,
};

verus! {

/// One piece of serialized text.
pub enum Piece {
    Lit(Seq<char>),
    Text(Seq<char>),
    Num(int),
    Quant(Decimal),
    Truth(bool),
}

/// One token of a wire shape, driving the walker.
#[derive(Clone, Copy, Debug)]
pub enum ShapeTok {
    LitTok(&'static str),
    TextTok,
    NumTok,
    QuantTok,
    TruthTok,
}

/// One parsed value.
#[derive(Debug)]
pub enum FieldVal {
    S(String),
    N(i64),
    D(Decimal),
    B(bool),
}

/// The spec-level value of one parsed field.
pub enum FieldValV {
    S(Seq<char>),
    N(int),
    D(Decimal),
    B(bool),
}

impl DeepView for FieldVal {
    type V = FieldValV;

    open spec fn deep_view(&self) -> FieldValV {
        match self {
            FieldVal::S(w) => FieldValV::S(w@),
            FieldVal::N(x) => FieldValV::N(*x as int),
            FieldVal::D(d) => FieldValV::D(*d),
            FieldVal::B(b) => FieldValV::B(*b),
        }
    }
}

pub open spec fn val_text(v: FieldValV) -> Seq<char> {
    match v {
        FieldValV::S(c) => c,
        _ => Seq::empty(),
    }
}

pub open spec fn val_num(v: FieldValV) -> int {
    match v {
        FieldValV::N(x) => x,
        _ => 0,
    }
}

pub open spec fn val_quant(v: FieldValV) -> Decimal {
    match v {
        FieldValV::D(d) => d,
        _ => Decimal { neg: false, int_part: 0, frac: 0, scale: 0 },
    }
}

pub open spec fn val_truth(v: FieldValV) -> bool {
    match v {
        FieldValV::B(b) => b,
        _ => false,
    }
}

pub open spec fn bool_rep(b: bool) -> Seq<char> {
    if b {
        "true"@
    } else {
        "false"@
    }
}

pub open spec fn piece_of(v: FieldValV) -> Piece {
    match v {
        FieldValV::S(c) => Piece::Text(c),
        FieldValV::N(x) => Piece::Num(x),
        FieldValV::D(d) => Piece::Quant(d),
        FieldValV::B(b) => Piece::Truth(b),
    }
}

pub open spec fn ser_piece(p: Piece) -> Seq<char> {
    match p {
        Piece::Lit(l) => l,
        Piece::Text(c) => text_rep(c),
        Piece::Num(v) => int_rep(v),
        Piece::Quant(d) => dec_full_rep(d),
        Piece::Truth(b) => bool_rep(b),
    }
}

pub open spec fn ser_pieces(ps: Seq<Piece>) -> Seq<char>
    decreases ps.len(),
{
    if ps.len() == 0 {
        Seq::empty()
    } else {
        ser_piece(ps[0]) + ser_pieces(ps.drop_first())
    }
}

/// The pieces that a shape takes on a given value assignment.
pub open spec fn mk_pieces(shape: Seq<ShapeTok>, vals: Seq<FieldValV>) -> Seq<Piece>
    decreases shape.len(),
{
    if shape.len() == 0 {
        Seq::empty()
    } else {
        match shape[0] {
            ShapeTok::LitTok(l) => seq![Piece::Lit(l@)] + mk_pieces(shape.drop_first(), vals),
            _ => {
                if vals.len() > 0 {
                    seq![piece_of(vals[0])] + mk_pieces(shape.drop_first(), vals.drop_first())
                } else {
                    mk_pieces(shape.drop_first(), vals)
                }
            },
        }
    }
}

/// A well-formed value of the matching kind for each value token, and
/// nothing left over.
pub open spec fn aligned(shape: Seq<ShapeTok>, vals: Seq<FieldValV>) -> bool
    decreases shape.len(),
{
    if shape.len() == 0 {
        vals.len() == 0
    } else {
        match shape[0] {
            ShapeTok::LitTok(_) => aligned(shape.drop_first(), vals),
            ShapeTok::TextTok => vals.len() > 0 && vals[0] is S && wf_text(val_text(vals[0]))
                && aligned(shape.drop_first(), vals.drop_first()),
            ShapeTok::NumTok => vals.len() > 0 && vals[0] is N && i64::MIN <= val_num(vals[0])
                <= i64::MAX && aligned(shape.drop_first(), vals.drop_first()),
            ShapeTok::QuantTok => vals.len() > 0 && vals[0] is D && wf_decimal(val_quant(vals[0]))
                && aligned(shape.drop_first(), vals.drop_first()),
            ShapeTok::TruthTok => vals.len() > 0 && vals[0] is B && aligned(
                shape.drop_first(),
                vals.drop_first(),
            ),
        }
    }
}

pub open spec fn tok_lit(t: ShapeTok) -> Seq<char> {
    match t {
        ShapeTok::LitTok(l) => l@,
        _ => Seq::empty(),
    }
}

pub open spec fn delim_ok(t: ShapeTok) -> bool {
    &&& t is LitTok
    &&& tok_lit(t).len() > 0
    &&& !is_digit(tok_lit(t)[0])
    &&& tok_lit(t)[0] != '.'
}

/// Every number token is followed by a literal that cannot extend the
/// number, so the number's end is unambiguous.
pub open spec fn shape_ok(shape: Seq<ShapeTok>) -> bool {
    forall|k: int|
        0 <= k < shape.len() && ((#[trigger] shape[k]) is NumTok || shape[k] is QuantTok) ==> k + 1
            < shape.len() && delim_ok(shape[k + 1])
}

/// The given shape, filled with the given values, occupies exactly
/// `[i, j)` of `s`.
pub open spec fn seg_at(
    s: Seq<char>,
    i: int,
    j: int,
    shape: Seq<ShapeTok>,
    vals: Seq<FieldValV>,
) -> bool {
    &&& 0 <= i <= j <= s.len()
    &&& aligned(shape, vals)
    &&& s.subrange(i, j) == ser_pieces(mk_pieces(shape, vals))
}

pub proof fn lemma_shape_ok_drop(shape: Seq<ShapeTok>)
    requires
        shape_ok(shape),
        shape.len() > 0,
    ensures
        shape_ok(shape.drop_first()),
{
    assert forall|k: int|
        0 <= k < shape.drop_first().len() && (((#[trigger] shape.drop_first()[k]) is NumTok)
            || shape.drop_first()[k] is QuantTok) implies k + 1 < shape.drop_first().len()
        && delim_ok(shape.drop_first()[k + 1]) by {
        assert(shape.drop_first()[k] == shape[k + 1]);
        assert(shape[k + 1] is NumTok || shape[k + 1] is QuantTok);
        assert(k + 2 < shape.len() && delim_ok(shape[k + 2]));
        assert(shape.drop_first()[k + 1] == shape[k + 2]);
    }
}

/// Peel the first token of a matched segment: its piece stands first, and
/// the rest of the segment follows it.
pub proof fn lemma_seg_step(s: Seq<char>, i: int, j: int, shape: Seq<ShapeTok>, vals: Seq<FieldValV>)
    requires
        seg_at(s, i, j, shape, vals),
        shape_ok(shape),
        shape.len() > 0,
    ensures
        shape_ok(shape.drop_first()),
        shape[0] is LitTok ==> {
            let l = tok_lit(shape[0]);
            &&& i + l.len() <= j
            &&& s.subrange(i, i + l.len()) == l
            &&& seg_at(s, i + l.len(), j, shape.drop_first(), vals)
        },
        shape[0] is TextTok ==> vals.len() > 0 && vals[0] is S && {
            let c = val_text(vals[0]);
            &&& text_at(s, i, i + c.len() + 2, c)
            &&& seg_at(s, i + c.len() + 2, j, shape.drop_first(), vals.drop_first())
        },
        shape[0] is NumTok ==> vals.len() > 0 && vals[0] is N && {
            let v = val_num(vals[0]);
            &&& int_at(s, i, i + int_rep(v).len(), v)
            &&& seg_at(s, i + int_rep(v).len(), j, shape.drop_first(), vals.drop_first())
        },
        shape[0] is QuantTok ==> vals.len() > 0 && vals[0] is D && {
            let d = val_quant(vals[0]);
            &&& dec_at(s, i, i + dec_full_rep(d).len(), d)
            &&& seg_at(s, i + dec_full_rep(d).len(), j, shape.drop_first(), vals.drop_first())
        },
        shape[0] is TruthTok ==> vals.len() > 0 && vals[0] is B && {
            let b = val_truth(vals[0]);
            &&& i + bool_rep(b).len() <= j
            &&& s.subrange(i, i + bool_rep(b).len()) == bool_rep(b)
            &&& seg_at(s, i + bool_rep(b).len(), j, shape.drop_first(), vals.drop_first())
        },
{
    lemma_shape_ok_drop(shape);
    let ps = mk_pieces(shape, vals);
    let p0 = if shape[0] is LitTok {
        Piece::Lit(tok_lit(shape[0]))
    } else {
        piece_of(vals[0])
    };
    let restvals = if shape[0] is LitTok {
        vals
    } else {
        vals.drop_first()
    };
    let rest = mk_pieces(shape.drop_first(), restvals);
    assert(ps == seq![p0] + rest);
    assert(ps[0] == p0);
    assert(ps.drop_first() =~= rest);
    assert(ser_pieces(ps) == ser_piece(p0) + ser_pieces(rest));
    lemma_split_two(s, i, j, ser_piece(p0), ser_pieces(rest));
    let plen = ser_piece(p0).len();
    assert(seg_at(s, i + plen, j, shape.drop_first(), restvals));
    if shape[0] is NumTok || shape[0] is QuantTok {
        // the next piece is a delimiting literal, so the number ends here
        assert(delim_ok(shape.drop_first()[0])) by {
            assert(shape.drop_first()[0] == shape[1]);
        }
        let l2 = tok_lit(shape.drop_first()[0]);
        let rest2 = mk_pieces(shape.drop_first().drop_first(), restvals);
        assert(rest == seq![Piece::Lit(l2)] + rest2);
        assert(rest[0] == Piece::Lit(l2));
        assert(rest.drop_first() =~= rest2);
        assert(ser_pieces(rest) == l2 + ser_pieces(rest2));
        assert(i + plen < j);
        assert(s[i + plen] == l2[0]) by {
            assert(s.subrange(i + plen, j)[0] == s[i + plen]);
            assert((l2 + ser_pieces(rest2))[0] == l2[0]);
        }
        assert(!is_digit(s[i + plen]) && s[i + plen] != '.');
    }
    if shape[0] is TextTok {
        assert(text_at(s, i, i + plen, val_text(vals[0])));
    }
}

/// Read the values of the shape's tokens from `t` on, starting at `i`.
/// Exact in both directions: on success the returned values and end are
/// the only ones that fit, and on failure no values fit at all.
pub fn walk_from(s: &str, i: usize, shape: &Vec<ShapeTok>, t: usize) -> (r: Option<
    (Vec<FieldVal>, usize),
>)
    requires
        i <= s@.len(),
        t <= shape@.len(),
        shape_ok(shape@.skip(t as int)),
    ensures
        match r {
            Some(p) => {
                &&& i <= p.1 <= s@.len()
                &&& seg_at(s@, i as int, p.1 as int, shape@.skip(t as int), p.0.deep_view())
                &&& forall|vals2: Seq<FieldValV>, j2: int|
                    seg_at(s@, i as int, j2, shape@.skip(t as int), vals2) ==> vals2
                        == p.0.deep_view() && j2 == p.1 as int
            },
            None => forall|vals2: Seq<FieldValV>, j2: int|
                !seg_at(s@, i as int, j2, shape@.skip(t as int), vals2),
        },
    decreases shape@.len() - t,
{
    let ghost sh = shape@.skip(t as int);
    if t >= shape.len() {
        let empty: Vec<FieldVal> = Vec::new();
        proof {
            assert(sh.len() == 0);
            assert(empty.deep_view() =~= Seq::<FieldValV>::empty());
            assert(s@.subrange(i as int, i as int) =~= Seq::<char>::empty());
            assert(seg_at(s@, i as int, i as int, sh, empty.deep_view()));
            assert forall|vals2: Seq<FieldValV>, j2: int|
                seg_at(s@, i as int, j2, sh, vals2) implies vals2 == empty.deep_view() && j2
                == i as int by {
                assert(vals2.len() == 0);
                assert(vals2 =~= empty.deep_view());
                assert(s@.subrange(i as int, j2).len() == j2 - i);
            }
        }
        return Some((empty, i));
    }
    let tok = shape[t];
    proof {
        assert(sh[0] == shape@[t as int]);
        assert(sh.drop_first() =~= shape@.skip(t as int + 1));
        lemma_shape_ok_drop(sh);
    }
    match tok {
        ShapeTok::LitTok(l) => {
            let lit1 = expect_lit(s, i, l);
            if lit1.is_none() {
                proof {
                    assert forall|vals2: Seq<FieldValV>, j2: int|
                        !seg_at(s@, i as int, j2, sh, vals2) by {
                        if seg_at(s@, i as int, j2, sh, vals2) {
                            lemma_seg_step(s@, i as int, j2, sh, vals2);
                            assert(tok_lit(sh[0]) == l@);
                        }
                    }
                }
                return None;
            }
            let j1 = lit1.unwrap();
            let rest = walk_from(s, j1, shape, t + 1);
            match rest {
                Some(p) => {
                    let vals = p.0;
                    let end = p.1;
                    proof {
                        let valsv = vals.deep_view();
                        let tail = mk_pieces(sh.drop_first(), valsv);
                        let ps = mk_pieces(sh, valsv);
                        assert(ps == seq![Piece::Lit(l@)] + tail);
                        assert(ps[0] == Piece::Lit(l@));
                        assert(ps.drop_first() =~= tail);
                        assert(ser_pieces(ps) == l@ + ser_pieces(tail));
                        lemma_glue_two(s@, i as int, j1 as int, end as int);
                        assert(seg_at(s@, i as int, end as int, sh, valsv));
                        assert forall|vals2: Seq<FieldValV>, j2: int|
                            seg_at(s@, i as int, j2, sh, vals2) implies vals2 == valsv && j2
                            == end as int by {
                            lemma_seg_step(s@, i as int, j2, sh, vals2);
                            assert(seg_at(s@, j1 as int, j2, shape@.skip(t as int + 1), vals2));
                        }
                    }
                    Some((vals, end))
                },
                None => {
                    proof {
                        assert forall|vals2: Seq<FieldValV>, j2: int|
                            !seg_at(s@, i as int, j2, sh, vals2) by {
                            if seg_at(s@, i as int, j2, sh, vals2) {
                                lemma_seg_step(s@, i as int, j2, sh, vals2);
                                assert(seg_at(s@, j1 as int, j2, shape@.skip(t as int + 1), vals2));
                            }
                        }
                    }
                    None
                },
            }
        },
        ShapeTok::TextTok => {
            let txt = parse_text(s, i);
            match txt {
                Some(tp) => {
                    let w = tp.0;
                    let j1 = tp.1;
                    let rest = walk_from(s, j1, shape, t + 1);
                    match rest {
                        Some(p) => {
                            let mut vals = p.0;
                            let end = p.1;
                            let ghost olddv = vals.deep_view();
                            let ghost oldvals = vals@;
                            vals.insert(0, FieldVal::S(w));
                            proof {
                                let newdv = vals.deep_view();
                                assert(vals@ == oldvals.insert(0, FieldVal::S(w)));
                                assert forall|m: int| 0 <= m < newdv.len() implies newdv[m] == (
                                seq![FieldValV::S(w@)] + olddv)[m] by {
                                    if m == 0 {
                                        assert(vals@[0] == FieldVal::S(w));
                                    } else {
                                        assert(vals@[m] == oldvals[m - 1]);
                                    }
                                }
                                assert(newdv =~= seq![FieldValV::S(w@)] + olddv);
                                let tail = mk_pieces(sh.drop_first(), olddv);
                                let ps = mk_pieces(sh, newdv);
                                assert(newdv[0] == FieldValV::S(w@));
                                assert(newdv.drop_first() =~= olddv);
                                assert(ps == seq![Piece::Text(w@)] + tail);
                                assert(ps[0] == Piece::Text(w@));
                                assert(ps.drop_first() =~= tail);
                                assert(ser_pieces(ps) == text_rep(w@) + ser_pieces(tail));
                                lemma_glue_two(s@, i as int, j1 as int, end as int);
                                assert(seg_at(s@, i as int, end as int, sh, newdv));
                                assert forall|vals2: Seq<FieldValV>, j2: int|
                                    seg_at(s@, i as int, j2, sh, vals2) implies vals2 == newdv && j2
                                    == end as int by {
                                    lemma_seg_step(s@, i as int, j2, sh, vals2);
                                    let c = val_text(vals2[0]);
                                    lemma_text_at_unique(
                                        s@,
                                        i as int,
                                        j1 as int,
                                        i + c.len() + 2,
                                        w@,
                                        c,
                                    );
                                    assert(vals2[0] == FieldValV::S(w@));
                                    assert(seg_at(
                                        s@,
                                        j1 as int,
                                        j2,
                                        shape@.skip(t as int + 1),
                                        vals2.drop_first(),
                                    ));
                                    assert(vals2.drop_first() == olddv);
                                    assert(vals2 =~= newdv);
                                }
                            }
                            Some((vals, end))
                        },
                        None => {
                            proof {
                                assert forall|vals2: Seq<FieldValV>, j2: int|
                                    !seg_at(s@, i as int, j2, sh, vals2) by {
                                    if seg_at(s@, i as int, j2, sh, vals2) {
                                        lemma_seg_step(s@, i as int, j2, sh, vals2);
                                        let c = val_text(vals2[0]);
                                        lemma_text_at_unique(
                                            s@,
                                            i as int,
                                            j1 as int,
                                            i + c.len() + 2,
                                            w@,
                                            c,
                                        );
                                        assert(seg_at(
                                            s@,
                                            j1 as int,
                                            j2,
                                            shape@.skip(t as int + 1),
                                            vals2.drop_first(),
                                        ));
                                    }
                                }
                            }
                            None
                        },
                    }
                },
                None => {
                    proof {
                        assert forall|vals2: Seq<FieldValV>, j2: int|
                            !seg_at(s@, i as int, j2, sh, vals2) by {
                            if seg_at(s@, i as int, j2, sh, vals2) {
                                lemma_seg_step(s@, i as int, j2, sh, vals2);
                            }
                        }
                    }
                    None
                },
            }
        },
        ShapeTok::NumTok => {
            let num = parse_int(s, i);
            match num {
                Some(np) => {
                    let v = np.0;
                    let j1 = np.1;
                    let rest = walk_from(s, j1, shape, t + 1);
                    match rest {
                        Some(p) => {
                            let mut vals = p.0;
                            let end = p.1;
                            let ghost olddv = vals.deep_view();
                            let ghost oldvals = vals@;
                            vals.insert(0, FieldVal::N(v));
                            proof {
                                let newdv = vals.deep_view();
                                assert(vals@ == oldvals.insert(0, FieldVal::N(v)));
                                assert forall|m: int| 0 <= m < newdv.len() implies newdv[m] == (
                                seq![FieldValV::N(v as int)] + olddv)[m] by {
                                    if m == 0 {
                                        assert(vals@[0] == FieldVal::N(v));
                                    } else {
                                        assert(vals@[m] == oldvals[m - 1]);
                                    }
                                }
                                assert(newdv =~= seq![FieldValV::N(v as int)] + olddv);
                                let tail = mk_pieces(sh.drop_first(), olddv);
                                let ps = mk_pieces(sh, newdv);
                                assert(newdv[0] == FieldValV::N(v as int));
                                assert(newdv.drop_first() =~= olddv);
                                assert(ps == seq![Piece::Num(v as int)] + tail);
                                assert(ps[0] == Piece::Num(v as int));
                                assert(ps.drop_first() =~= tail);
                                assert(ser_pieces(ps) == int_rep(v as int) + ser_pieces(tail));
                                lemma_glue_two(s@, i as int, j1 as int, end as int);
                                assert(seg_at(s@, i as int, end as int, sh, newdv));
                                assert forall|vals2: Seq<FieldValV>, j2: int|
                                    seg_at(s@, i as int, j2, sh, vals2) implies vals2 == newdv && j2
                                    == end as int by {
                                    lemma_seg_step(s@, i as int, j2, sh, vals2);
                                    let v2 = val_num(vals2[0]);
                                    lemma_int_at_unique(
                                        s@,
                                        i as int,
                                        j1 as int,
                                        i + int_rep(v2).len(),
                                        v as int,
                                        v2,
                                    );
                                    assert(vals2[0] == FieldValV::N(v as int));
                                    assert(seg_at(
                                        s@,
                                        j1 as int,
                                        j2,
                                        shape@.skip(t as int + 1),
                                        vals2.drop_first(),
                                    ));
                                    assert(vals2.drop_first() == olddv);
                                    assert(vals2 =~= newdv);
                                }
                            }
                            Some((vals, end))
                        },
                        None => {
                            proof {
                                assert forall|vals2: Seq<FieldValV>, j2: int|
                                    !seg_at(s@, i as int, j2, sh, vals2) by {
                                    if seg_at(s@, i as int, j2, sh, vals2) {
                                        lemma_seg_step(s@, i as int, j2, sh, vals2);
                                        let v2 = val_num(vals2[0]);
                                        lemma_int_at_unique(
                                            s@,
                                            i as int,
                                            j1 as int,
                                            i + int_rep(v2).len(),
                                            v as int,
                                            v2,
                                        );
                                        assert(seg_at(
                                            s@,
                                            j1 as int,
                                            j2,
                                            shape@.skip(t as int + 1),
                                            vals2.drop_first(),
                                        ));
                                    }
                                }
                            }
                            None
                        },
                    }
                },
                None => {
                    proof {
                        assert forall|vals2: Seq<FieldValV>, j2: int|
                            !seg_at(s@, i as int, j2, sh, vals2) by {
                            if seg_at(s@, i as int, j2, sh, vals2) {
                                lemma_seg_step(s@, i as int, j2, sh, vals2);
                                let v2 = val_num(vals2[0]);
                                assert(int_at(s@, i as int, i + int_rep(v2).len(), v2));
                                assert(i64::MIN <= v2 <= i64::MAX);
                                assert(!int_at(s@, i as int, i + int_rep(v2).len(), (v2 as i64) as int));
                            }
                        }
                    }
                    None
                },
            }
        },
        ShapeTok::QuantTok => {
            let qn = parse_dec(s, i);
            match qn {
                Some(qp) => {
                    let d = qp.0;
                    let j1 = qp.1;
                    let rest = walk_from(s, j1, shape, t + 1);
                    match rest {
                        Some(p) => {
                            let mut vals = p.0;
                            let end = p.1;
                            let ghost olddv = vals.deep_view();
                            let ghost oldvals = vals@;
                            vals.insert(0, FieldVal::D(d));
                            proof {
                                let newdv = vals.deep_view();
                                assert(vals@ == oldvals.insert(0, FieldVal::D(d)));
                                assert forall|m: int| 0 <= m < newdv.len() implies newdv[m] == (
                                seq![FieldValV::D(d)] + olddv)[m] by {
                                    if m == 0 {
                                        assert(vals@[0] == FieldVal::D(d));
                                    } else {
                                        assert(vals@[m] == oldvals[m - 1]);
                                    }
                                }
                                assert(newdv =~= seq![FieldValV::D(d)] + olddv);
                                let tail = mk_pieces(sh.drop_first(), olddv);
                                let ps = mk_pieces(sh, newdv);
                                assert(newdv[0] == FieldValV::D(d));
                                assert(newdv.drop_first() =~= olddv);
                                assert(ps == seq![Piece::Quant(d)] + tail);
                                assert(ps[0] == Piece::Quant(d));
                                assert(ps.drop_first() =~= tail);
                                assert(ser_pieces(ps) == dec_full_rep(d) + ser_pieces(tail));
                                lemma_glue_two(s@, i as int, j1 as int, end as int);
                                assert(seg_at(s@, i as int, end as int, sh, newdv));
                                assert forall|vals2: Seq<FieldValV>, j2: int|
                                    seg_at(s@, i as int, j2, sh, vals2) implies vals2 == newdv && j2
                                    == end as int by {
                                    lemma_seg_step(s@, i as int, j2, sh, vals2);
                                    let d2 = val_quant(vals2[0]);
                                    lemma_dec_at_unique(
                                        s@,
                                        i as int,
                                        j1 as int,
                                        i + dec_full_rep(d2).len(),
                                        d,
                                        d2,
                                    );
                                    assert(vals2[0] == FieldValV::D(d));
                                    assert(seg_at(
                                        s@,
                                        j1 as int,
                                        j2,
                                        shape@.skip(t as int + 1),
                                        vals2.drop_first(),
                                    ));
                                    assert(vals2.drop_first() == olddv);
                                    assert(vals2 =~= newdv);
                                }
                            }
                            Some((vals, end))
                        },
                        None => {
                            proof {
                                assert forall|vals2: Seq<FieldValV>, j2: int|
                                    !seg_at(s@, i as int, j2, sh, vals2) by {
                                    if seg_at(s@, i as int, j2, sh, vals2) {
                                        lemma_seg_step(s@, i as int, j2, sh, vals2);
                                        let d2 = val_quant(vals2[0]);
                                        lemma_dec_at_unique(
                                            s@,
                                            i as int,
                                            j1 as int,
                                            i + dec_full_rep(d2).len(),
                                            d,
                                            d2,
                                        );
                                        assert(seg_at(
                                            s@,
                                            j1 as int,
                                            j2,
                                            shape@.skip(t as int + 1),
                                            vals2.drop_first(),
                                        ));
                                    }
                                }
                            }
                            None
                        },
                    }
                },
                None => {
                    proof {
                        assert forall|vals2: Seq<FieldValV>, j2: int|
                            !seg_at(s@, i as int, j2, sh, vals2) by {
                            if seg_at(s@, i as int, j2, sh, vals2) {
                                lemma_seg_step(s@, i as int, j2, sh, vals2);
                                let d2 = val_quant(vals2[0]);
                                assert(dec_at(s@, i as int, i + dec_full_rep(d2).len(), d2));
                            }
                        }
                    }
                    None
                },
            }
        },
        ShapeTok::TruthTok => {
            let tlit = expect_lit(s, i, "true");
            let flit = if tlit.is_none() {
                expect_lit(s, i, "false")
            } else {
                None
            };
            proof {
                reveal_strlit("true");
                reveal_strlit("false");
            }
            if tlit.is_none() && flit.is_none() {
                proof {
                    assert forall|vals2: Seq<FieldValV>, j2: int|
                        !seg_at(s@, i as int, j2, sh, vals2) by {
                        if seg_at(s@, i as int, j2, sh, vals2) {
                            lemma_seg_step(s@, i as int, j2, sh, vals2);
                            let b2 = val_truth(vals2[0]);
                            if b2 {
                                assert(s@.subrange(i as int, i + 4) == "true"@);
                            } else {
                                assert(s@.subrange(i as int, i + 5) == "false"@);
                            }
                        }
                    }
                }
                return None;
            }
            let b = tlit.is_some();
            let j1 = if b {
                tlit.unwrap()
            } else {
                flit.unwrap()
            };
            let ghost brep = bool_rep(b);
            proof {
                assert(s@.subrange(i as int, j1 as int) == brep);
            }
            let rest = walk_from(s, j1, shape, t + 1);
            match rest {
                Some(p) => {
                    let mut vals = p.0;
                    let end = p.1;
                    let ghost olddv = vals.deep_view();
                    let ghost oldvals = vals@;
                    vals.insert(0, FieldVal::B(b));
                    proof {
                        let newdv = vals.deep_view();
                        assert(vals@ == oldvals.insert(0, FieldVal::B(b)));
                        assert forall|m: int| 0 <= m < newdv.len() implies newdv[m] == (seq![
                            FieldValV::B(b),
                        ] + olddv)[m] by {
                            if m == 0 {
                                assert(vals@[0] == FieldVal::B(b));
                            } else {
                                assert(vals@[m] == oldvals[m - 1]);
                            }
                        }
                        assert(newdv =~= seq![FieldValV::B(b)] + olddv);
                        let tail = mk_pieces(sh.drop_first(), olddv);
                        let ps = mk_pieces(sh, newdv);
                        assert(newdv[0] == FieldValV::B(b));
                        assert(newdv.drop_first() =~= olddv);
                        assert(ps == seq![Piece::Truth(b)] + tail);
                        assert(ps[0] == Piece::Truth(b));
                        assert(ps.drop_first() =~= tail);
                        assert(ser_pieces(ps) == brep + ser_pieces(tail));
                        lemma_glue_two(s@, i as int, j1 as int, end as int);
                        assert(seg_at(s@, i as int, end as int, sh, newdv));
                        assert forall|vals2: Seq<FieldValV>, j2: int|
                            seg_at(s@, i as int, j2, sh, vals2) implies vals2 == newdv && j2
                            == end as int by {
                            lemma_seg_step(s@, i as int, j2, sh, vals2);
                            let b2 = val_truth(vals2[0]);
                            if b2 != b {
                                assert(s@.subrange(i as int, i + bool_rep(b2).len())[0]
                                    == s@[i as int]);
                                assert(s@.subrange(i as int, j1 as int)[0] == s@[i as int]);
                                assert(false);
                            }
                            assert(vals2[0] == FieldValV::B(b));
                            assert(seg_at(
                                s@,
                                j1 as int,
                                j2,
                                shape@.skip(t as int + 1),
                                vals2.drop_first(),
                            ));
                            assert(vals2.drop_first() == olddv);
                            assert(vals2 =~= newdv);
                        }
                    }
                    Some((vals, end))
                },
                None => {
                    proof {
                        assert forall|vals2: Seq<FieldValV>, j2: int|
                            !seg_at(s@, i as int, j2, sh, vals2) by {
                            if seg_at(s@, i as int, j2, sh, vals2) {
                                lemma_seg_step(s@, i as int, j2, sh, vals2);
                                let b2 = val_truth(vals2[0]);
                                if b2 != b {
                                    assert(s@.subrange(i as int, i + bool_rep(b2).len())[0]
                                        == s@[i as int]);
                                    assert(s@.subrange(i as int, j1 as int)[0] == s@[i as int]);
                                    assert(false);
                                }
                                assert(seg_at(
                                    s@,
                                    j1 as int,
                                    j2,
                                    shape@.skip(t as int + 1),
                                    vals2.drop_first(),
                                ));
                            }
                        }
                    }
                    None
                },
            }
        },
    }
}

/// Read one full wire-shape alternation starting at `start`.
pub fn walk(s: &str, start: usize, shape: &Vec<ShapeTok>) -> (r: Option<(Vec<FieldVal>, usize)>)
    requires
        start <= s@.len(),
        shape_ok(shape@),
    ensures
        match r {
            Some(p) => {
                &&& start <= p.1 <= s@.len()
                &&& seg_at(s@, start as int, p.1 as int, shape@, p.0.deep_view())
                &&& forall|vals2: Seq<FieldValV>, j2: int|
                    seg_at(s@, start as int, j2, shape@, vals2) ==> vals2 == p.0.deep_view() && j2
                        == p.1 as int
            },
            None => forall|vals2: Seq<FieldValV>, j2: int|
                !seg_at(s@, start as int, j2, shape@, vals2),
        },
{
    proof {
        assert(shape@.skip(0) =~= shape@);
    }
    walk_from(s, start, shape, 0)
}

proof fn lemma_cons_eq(v1: Seq<FieldValV>, v2: Seq<FieldValV>)
    requires
        v1.len() > 0,
        v2.len() > 0,
        v1[0] == v2[0],
        v1.drop_first() == v2.drop_first(),
    ensures
        v1 == v2,
{
    assert(v1.drop_first() == v1.subrange(1, v1.len() as int));
    assert(v2.drop_first() == v2.subrange(1, v2.len() as int));
    assert forall|m: int| 0 <= m < v1.len() implies v1[m] == v2[m] by {
        if m > 0 {
            assert(v1.subrange(1, v1.len() as int)[m - 1] == v1[m]);
            assert(v2.subrange(1, v2.len() as int)[m - 1] == v2[m]);
        }
    }
    assert(v1 =~= v2);
}

/// A segment is unambiguous: two readings of the same shape at the same
/// start agree on the values and on the end.
pub proof fn lemma_seg_unique(
    s: Seq<char>,
    i: int,
    j1: int,
    j2: int,
    shape: Seq<ShapeTok>,
    v1: Seq<FieldValV>,
    v2: Seq<FieldValV>,
)
    requires
        seg_at(s, i, j1, shape, v1),
        seg_at(s, i, j2, shape, v2),
        shape_ok(shape),
    ensures
        j1 == j2,
        v1 == v2,
    decreases shape.len(),
{
    if shape.len() == 0 {
        assert(v1 =~= v2);
        assert(s.subrange(i, j1).len() == j1 - i);
        assert(s.subrange(i, j2).len() == j2 - i);
    } else {
        lemma_seg_step(s, i, j1, shape, v1);
        lemma_seg_step(s, i, j2, shape, v2);
        match shape[0] {
            ShapeTok::LitTok(_) => {
                let l = tok_lit(shape[0]);
                lemma_seg_unique(s, i + l.len(), j1, j2, shape.drop_first(), v1, v2);
            },
            ShapeTok::TextTok => {
                let c1 = val_text(v1[0]);
                let c2 = val_text(v2[0]);
                lemma_text_at_unique(s, i, i + c1.len() + 2, i + c2.len() + 2, c1, c2);
                assert(v1[0] == FieldValV::S(c1));
                assert(v2[0] == FieldValV::S(c2));
                lemma_seg_unique(
                    s,
                    i + c1.len() + 2,
                    j1,
                    j2,
                    shape.drop_first(),
                    v1.drop_first(),
                    v2.drop_first(),
                );
                lemma_cons_eq(v1, v2);
            },
            ShapeTok::NumTok => {
                let x1 = val_num(v1[0]);
                let x2 = val_num(v2[0]);
                lemma_int_at_unique(s, i, i + int_rep(x1).len(), i + int_rep(x2).len(), x1, x2);
                assert(v1[0] == FieldValV::N(x1));
                assert(v2[0] == FieldValV::N(x2));
                lemma_seg_unique(
                    s,
                    i + int_rep(x1).len(),
                    j1,
                    j2,
                    shape.drop_first(),
                    v1.drop_first(),
                    v2.drop_first(),
                );
                lemma_cons_eq(v1, v2);
            },
            ShapeTok::QuantTok => {
                let d1 = val_quant(v1[0]);
                let d2 = val_quant(v2[0]);
                lemma_dec_at_unique(
                    s,
                    i,
                    i + dec_full_rep(d1).len(),
                    i + dec_full_rep(d2).len(),
                    d1,
                    d2,
                );
                assert(v1[0] == FieldValV::D(d1));
                assert(v2[0] == FieldValV::D(d2));
                lemma_seg_unique(
                    s,
                    i + dec_full_rep(d1).len(),
                    j1,
                    j2,
                    shape.drop_first(),
                    v1.drop_first(),
                    v2.drop_first(),
                );
                lemma_cons_eq(v1, v2);
            },
            ShapeTok::TruthTok => {
                let b1 = val_truth(v1[0]);
                let b2 = val_truth(v2[0]);
                reveal_strlit("true");
                reveal_strlit("false");
                if b1 != b2 {
                    assert(s.subrange(i, i + bool_rep(b1).len())[0] == s[i]);
                    assert(s.subrange(i, i + bool_rep(b2).len())[0] == s[i]);
                    assert(false);
                }
                assert(v1[0] == FieldValV::B(b1));
                assert(v2[0] == FieldValV::B(b2));
                lemma_seg_unique(
                    s,
                    i + bool_rep(b1).len(),
                    j1,
                    j2,
                    shape.drop_first(),
                    v1.drop_first(),
                    v2.drop_first(),
                );
                lemma_cons_eq(v1, v2);
            },
        }
    }
}

/// The text of one shape filled with one value assignment.
pub open spec fn ser_seg(shape: Seq<ShapeTok>, vals: Seq<FieldValV>) -> Seq<char> {
    ser_pieces(mk_pieces(shape, vals))
}

/// The comma-joined texts of the array items.
pub open spec fn ser_items(shape: Seq<ShapeTok>, items: Seq<Seq<FieldValV>>) -> Seq<char>
    decreases items.len(),
{
    if items.len() == 0 {
        Seq::empty()
    } else if items.len() == 1 {
        ser_seg(shape, items[0])
    } else {
        ser_seg(shape, items[0]) + seq![','] + ser_items(shape, items.drop_first())
    }
}

/// An array of the given shape's items stands at `[i, j)`.
pub open spec fn arr_at(
    s: Seq<char>,
    i: int,
    j: int,
    shape: Seq<ShapeTok>,
    items: Seq<Seq<FieldValV>>,
) -> bool {
    &&& 0 <= i <= j <= s.len()
    &&& forall|k: int| 0 <= k < items.len() ==> aligned(shape, #[trigger] items[k])
    &&& s.subrange(i, j) == seq!['['] + ser_items(shape, items) + seq![']']
}

/// Every item's text begins unmistakably: with a brace or a quote.
pub open spec fn head_opens(shape: Seq<ShapeTok>) -> bool {
    ||| shape[0] is TextTok
    ||| (shape[0] is LitTok && tok_lit(shape[0]).len() > 0 && tok_lit(shape[0])[0] == '{')
}

pub proof fn lemma_seg_first_char(s: Seq<char>, i: int, j: int, shape: Seq<ShapeTok>, vals: Seq<FieldValV>)
    requires
        seg_at(s, i, j, shape, vals),
        shape_ok(shape),
        shape.len() > 0,
        head_opens(shape),
    ensures
        i < j,
        s[i] == '{' || s[i] == '"',
{
    lemma_seg_step(s, i, j, shape, vals);
    if shape[0] is TextTok {
        let c = val_text(vals[0]);
        lemma_text_at_parts(s, i, i + c.len() + 2, c);
    } else {
        let l = tok_lit(shape[0]);
        assert(s.subrange(i, i + l.len())[0] == s[i]);
    }
}

pub proof fn lemma_ser_items_snoc(shape: Seq<ShapeTok>, items: Seq<Seq<FieldValV>>, x: Seq<FieldValV>)
    requires
        items.len() >= 1,
    ensures
        ser_items(shape, items.push(x)) == ser_items(shape, items) + seq![','] + ser_seg(shape, x),
    decreases items.len(),
{
    let p = items.push(x);
    assert(p[0] == items[0]);
    if items.len() == 1 {
        assert(p.drop_first() =~= seq![x]);
        assert(ser_items(shape, seq![x]) == ser_seg(shape, x));
        assert(ser_items(shape, p) == ser_seg(shape, items[0]) + seq![','] + ser_seg(shape, x));
    } else {
        assert(p.drop_first() =~= items.drop_first().push(x));
        lemma_ser_items_snoc(shape, items.drop_first(), x);
        assert(ser_items(shape, p) == ser_seg(shape, p[0]) + seq![','] + ser_items(
            shape,
            items.drop_first().push(x),
        ));
        assert(ser_seg(shape, items[0]) + seq![','] + (ser_items(shape, items.drop_first())
            + seq![','] + ser_seg(shape, x)) =~= (ser_seg(shape, items[0]) + seq![','] + ser_items(
            shape,
            items.drop_first(),
        )) + seq![','] + ser_seg(shape, x));
    }
}

/// Peel the first item of a comma-joined item list followed by `]`.
proof fn lemma_items_head(
    s: Seq<char>,
    cur: int,
    j2: int,
    shape: Seq<ShapeTok>,
    items: Seq<Seq<FieldValV>>,
)
    requires
        0 <= cur <= j2 <= s.len(),
        items.len() >= 1,
        forall|k: int| 0 <= k < items.len() ==> aligned(shape, #[trigger] items[k]),
        s.subrange(cur, j2) == ser_items(shape, items) + seq![']'],
        shape_ok(shape),
    ensures
        ({
            let e = cur + ser_seg(shape, items[0]).len();
            &&& cur <= e < j2
            &&& seg_at(s, cur, e, shape, items[0])
            &&& (items.len() == 1 ==> s[e] == ']' && j2 == e + 1)
            &&& (items.len() > 1 ==> s[e] == ',' && e + 1 <= j2 && s.subrange(e + 1, j2)
                == ser_items(shape, items.drop_first()) + seq![']'])
        }),
{
    let seg = ser_seg(shape, items[0]);
    let e = cur + seg.len();
    if items.len() == 1 {
        assert(ser_items(shape, items) == seg);
        lemma_split_two(s, cur, j2, seg, seq![']']);
        assert(s.subrange(e, j2)[0] == s[e]);
        assert(seg_at(s, cur, e, shape, items[0]));
    } else {
        let rest = ser_items(shape, items.drop_first());
        assert(ser_items(shape, items) == seg + seq![','] + rest);
        assert((seg + seq![','] + rest) + seq![']'] =~= seg + (seq![','] + (rest + seq![']'])));
        lemma_split_two(s, cur, j2, seg, seq![','] + (rest + seq![']']));
        lemma_split_two(s, e, j2, seq![','], rest + seq![']']);
        assert(s.subrange(e, e + 1)[0] == s[e]);
        assert(s.subrange(e, e + 1) == seq![',']);
        assert(seg_at(s, cur, e, shape, items[0]));
        assert(items.drop_first().len() >= 1);
    }
}

/// Read a bracketed array of items of the given shape starting at `i`.
/// Exact in both directions, like the walker.
pub fn parse_arr(s: &str, i: usize, shape: &Vec<ShapeTok>) -> (r: Option<
    (Vec<Vec<FieldVal>>, usize),
>)
    requires
        i <= s@.len(),
        shape_ok(shape@),
        shape@.len() > 0,
        head_opens(shape@),
    ensures
        match r {
            Some(p) => {
                &&& i < p.1 <= s@.len()
                &&& arr_at(s@, i as int, p.1 as int, shape@, p.0.deep_view())
                &&& forall|items2: Seq<Seq<FieldValV>>, j2: int|
                    arr_at(s@, i as int, j2, shape@, items2) ==> items2 == p.0.deep_view() && j2
                        == p.1 as int
            },
            None => forall|items2: Seq<Seq<FieldValV>>, j2: int|
                !arr_at(s@, i as int, j2, shape@, items2),
        },
{
    let n = s.unicode_len();
    if i >= n || i + 1 >= n {
        proof {
            assert forall|items2: Seq<Seq<FieldValV>>, j2: int|
                !arr_at(s@, i as int, j2, shape@, items2) by {
                if arr_at(s@, i as int, j2, shape@, items2) {
                    assert(s@.subrange(i as int, j2).len() == j2 - i);
                }
            }
        }
        return None;
    }
    if s.get_char(i) != '[' {
        proof {
            assert forall|items2: Seq<Seq<FieldValV>>, j2: int|
                !arr_at(s@, i as int, j2, shape@, items2) by {
                if arr_at(s@, i as int, j2, shape@, items2) {
                    assert(s@.subrange(i as int, j2).len() == j2 - i);
                    assert(s@.subrange(i as int, j2)[0] == s@[i as int]);
                    assert((seq!['['] + ser_items(shape@, items2) + seq![']'])[0] == '[');
                }
            }
        }
        return None;
    }
    proof {
        assert(s@[i as int] == '[');
    }
    if s.get_char(i + 1) == ']' {
        let out: Vec<Vec<FieldVal>> = Vec::new();
        proof {
            let odv = out.deep_view();
            assert(odv =~= Seq::<Seq<FieldValV>>::empty());
            assert(ser_items(shape@, odv) == Seq::<char>::empty());
            assert(seq!['['] + ser_items(shape@, odv) + seq![']'] =~= s@.subrange(i as int, i + 2))
                by {
                assert(s@.subrange(i as int, i + 2)[0] == s@[i as int]);
                assert(s@.subrange(i as int, i + 2)[1] == s@[i + 1]);
            }
            assert(arr_at(s@, i as int, i + 2, shape@, odv));
            assert forall|items2: Seq<Seq<FieldValV>>, j2: int|
                arr_at(s@, i as int, j2, shape@, items2) implies items2 == odv && j2 == i + 2 by {
                assert(seq!['['] + ser_items(shape@, items2) + seq![']'] =~= seq!['['] + (
                ser_items(shape@, items2) + seq![']']));
                lemma_split_two(
                    s@,
                    i as int,
                    j2,
                    seq!['['],
                    ser_items(shape@, items2) + seq![']'],
                );
                if items2.len() > 0 {
                    lemma_items_head(s@, i + 1, j2, shape@, items2);
                    lemma_seg_first_char(
                        s@,
                        i + 1,
                        i + 1 + ser_seg(shape@, items2[0]).len(),
                        shape@,
                        items2[0],
                    );
                    assert(false);
                } else {
                    assert(items2 =~= odv);
                    assert(s@.subrange(i + 1, j2).len() == j2 - i - 1);
                }
            }
        }
        return Some((out, i + 2));
    }
    let mut out: Vec<Vec<FieldVal>> = Vec::new();
    let mut cur: usize = i + 1;
    proof {
        assert(out.deep_view() =~= Seq::<Seq<FieldValV>>::empty());
        assert forall|items2: Seq<Seq<FieldValV>>, j2: int|
            arr_at(s@, i as int, j2, shape@, items2) implies {
            &&& items2.len() > 0
            &&& items2.subrange(0, 0) =~= out.deep_view()
            &&& cur <= j2 <= s@.len()
            &&& s@.subrange(cur as int, j2) == ser_items(shape@, items2.skip(0)) + seq![']']
        } by {
            assert(seq!['['] + ser_items(shape@, items2) + seq![']'] =~= seq!['['] + (ser_items(
                shape@,
                items2,
            ) + seq![']']));
            lemma_split_two(s@, i as int, j2, seq!['['], ser_items(shape@, items2) + seq![']']);
            assert(items2.skip(0) =~= items2);
            if items2.len() == 0 {
                assert(s@.subrange(i + 1, j2).len() == j2 - i - 1);
                assert(s@.subrange(i + 1, j2)[0] == s@[i + 1]);
                assert((ser_items(shape@, items2) + seq![']'])[0] == ']');
                assert(false);
            }
        }
    }
    loop
        invariant
            n == s@.len(),
            i < n,
            i + 1 <= cur <= n,
            shape_ok(shape@),
            shape@.len() > 0,
            head_opens(shape@),
            s@[i as int] == '[',
            out.deep_view().len() == 0 ==> cur == i + 1,
            out.deep_view().len() > 0 ==> s@.subrange(i + 1, cur as int) == ser_items(
                shape@,
                out.deep_view(),
            ) + seq![','],
            forall|k: int|
                0 <= k < out.deep_view().len() ==> aligned(shape@, #[trigger] out.deep_view()[k]),
            forall|items2: Seq<Seq<FieldValV>>, j2: int|
                arr_at(s@, i as int, j2, shape@, items2) ==> {
                    &&& items2.len() > out.deep_view().len()
                    &&& items2.subrange(0, out.deep_view().len() as int) == out.deep_view()
                    &&& cur <= j2 <= s@.len()
                    &&& s@.subrange(cur as int, j2) == ser_items(
                        shape@,
                        items2.skip(out.deep_view().len() as int),
                    ) + seq![']']
                },
        decreases n - cur,
    {
        let ghost olddv = out.deep_view();
        let ghost k = olddv.len() as int;
        let entry = walk(s, cur, shape);
        if entry.is_none() {
            proof {
                assert forall|items2: Seq<Seq<FieldValV>>, j2: int|
                    !arr_at(s@, i as int, j2, shape@, items2) by {
                    if arr_at(s@, i as int, j2, shape@, items2) {
                        let tailitems = items2.skip(k);
                        assert(tailitems.len() >= 1);
                        assert forall|m: int| 0 <= m < tailitems.len() implies aligned(
                            shape@,
                            #[trigger] tailitems[m],
                        ) by {
                            assert(tailitems[m] == items2[k + m]);
                        }
                        lemma_items_head(s@, cur as int, j2, shape@, tailitems);
                    }
                }
            }
            return None;
        }
        let ep = entry.unwrap();
        let vals = ep.0;
        let e = ep.1;
        if e >= n {
            proof {
                assert forall|items2: Seq<Seq<FieldValV>>, j2: int|
                    !arr_at(s@, i as int, j2, shape@, items2) by {
                    if arr_at(s@, i as int, j2, shape@, items2) {
                        let tailitems = items2.skip(k);
                        assert forall|m: int| 0 <= m < tailitems.len() implies aligned(
                            shape@,
                            #[trigger] tailitems[m],
                        ) by {
                            assert(tailitems[m] == items2[k + m]);
                        }
                        lemma_items_head(s@, cur as int, j2, shape@, tailitems);
                        assert(seg_at(
                            s@,
                            cur as int,
                            cur + ser_seg(shape@, tailitems[0]).len(),
                            shape@,
                            tailitems[0],
                        ));
                        assert(cur + ser_seg(shape@, tailitems[0]).len() == e);
                        assert(e < j2 <= s@.len());
                    }
                }
            }
            return None;
        }
        let sep = s.get_char(e);
        let ghost oldvec = out@;
        out.push(vals);
        let ghost newdv = out.deep_view();
        proof {
            assert forall|m: int| 0 <= m < newdv.len() implies newdv[m] == olddv.push(
                oldvec.push(vals)[k].deep_view(),
            )[m] by {
                if m < k {
                    assert(out@[m] == oldvec[m]);
                } else {
                    assert(out@[m] == oldvec.push(vals)[m]);
                }
            }
            assert(newdv =~= olddv.push(vals.deep_view()));
        }
        if sep == ']' {
            proof {
                // what we have read so far is the whole item list
                if k == 0 {
                    assert(ser_items(shape@, newdv) == ser_seg(shape@, newdv[0]));
                    assert(newdv[0] == vals.deep_view());
                    assert(s@.subrange(i + 1, e as int) == ser_items(shape@, newdv));
                } else {
                    lemma_ser_items_snoc(shape@, olddv, vals.deep_view());
                    lemma_glue_two(s@, i + 1, cur as int, e as int);
                    assert(s@.subrange(i + 1, e as int) == (ser_items(shape@, olddv) + seq![','])
                        + ser_seg(shape@, vals.deep_view()));
                    assert((ser_items(shape@, olddv) + seq![',']) + ser_seg(
                        shape@,
                        vals.deep_view(),
                    ) =~= ser_items(shape@, olddv) + seq![','] + ser_seg(shape@, vals.deep_view()));
                    assert(s@.subrange(i + 1, e as int) == ser_items(shape@, newdv));
                }
                lemma_glue_two(s@, i as int, i + 1, e + 1);
                lemma_glue_two(s@, i + 1, e as int, e + 1);
                assert(s@.subrange(i as int, i + 1)[0] == s@[i as int]);
                assert(s@.subrange(i as int, i + 1) =~= seq!['[']);
                assert(s@.subrange(e as int, e + 1)[0] == s@[e as int]);
                assert(s@.subrange(e as int, e + 1) =~= seq![']']);
                assert(seq!['['] + (ser_items(shape@, newdv) + seq![']']) =~= seq!['[']
                    + ser_items(shape@, newdv) + seq![']']);
                assert(arr_at(s@, i as int, e + 1, shape@, newdv)) by {
                    assert forall|m: int| 0 <= m < newdv.len() implies aligned(
                        shape@,
                        #[trigger] newdv[m],
                    ) by {
                        if m < k {
                            assert(newdv[m] == olddv[m]);
                        }
                    }
                }
                assert forall|items2: Seq<Seq<FieldValV>>, j2: int|
                    arr_at(s@, i as int, j2, shape@, items2) implies items2 == newdv && j2 == e
                    + 1 by {
                    let tailitems = items2.skip(k);
                    assert forall|m: int| 0 <= m < tailitems.len() implies aligned(
                        shape@,
                        #[trigger] tailitems[m],
                    ) by {
                        assert(tailitems[m] == items2[k + m]);
                    }
                    lemma_items_head(s@, cur as int, j2, shape@, tailitems);
                    assert(seg_at(
                        s@,
                        cur as int,
                        cur + ser_seg(shape@, tailitems[0]).len(),
                        shape@,
                        tailitems[0],
                    ));
                    assert(tailitems[0] == vals.deep_view());
                    assert(cur + ser_seg(shape@, tailitems[0]).len() == e);
                    if tailitems.len() > 1 {
                        assert(s@[e as int] == ',');
                        assert(false);
                    }
                    assert(j2 == e + 1);
                    assert(items2.len() == k + 1);
                    assert forall|m: int| 0 <= m < items2.len() implies items2[m] == newdv[m] by {
                        if m < k {
                            assert(items2.subrange(0, k)[m] == items2[m]);
                        } else {
                            assert(tailitems[0] == items2[k]);
                        }
                    }
                    assert(items2 =~= newdv);
                }
            }
            return Some((out, e + 1));
        }
        if sep != ',' {
            proof {
                assert forall|items2: Seq<Seq<FieldValV>>, j2: int|
                    !arr_at(s@, i as int, j2, shape@, items2) by {
                    if arr_at(s@, i as int, j2, shape@, items2) {
                        let tailitems = items2.skip(k);
                        assert forall|m: int| 0 <= m < tailitems.len() implies aligned(
                            shape@,
                            #[trigger] tailitems[m],
                        ) by {
                            assert(tailitems[m] == items2[k + m]);
                        }
                        lemma_items_head(s@, cur as int, j2, shape@, tailitems);
                        assert(tailitems[0] == vals.deep_view());
                        assert(cur + ser_seg(shape@, tailitems[0]).len() == e);
                        if tailitems.len() == 1 {
                            assert(s@[e as int] == ']');
                        } else {
                            assert(s@[e as int] == ',');
                        }
                    }
                }
            }
            return None;
        }
        // a comma: another item follows
        proof {
            if k == 0 {
                assert(ser_items(shape@, newdv) == ser_seg(shape@, newdv[0]));
                assert(newdv[0] == vals.deep_view());
            } else {
                lemma_ser_items_snoc(shape@, olddv, vals.deep_view());
                lemma_glue_two(s@, i + 1, cur as int, e as int);
                assert((ser_items(shape@, olddv) + seq![',']) + ser_seg(shape@, vals.deep_view())
                    =~= ser_items(shape@, olddv) + seq![','] + ser_seg(shape@, vals.deep_view()));
            }
            assert(s@.subrange(i + 1, e as int) == ser_items(shape@, newdv));
            lemma_glue_two(s@, i + 1, e as int, e + 1);
            assert(s@.subrange(e as int, e + 1)[0] == s@[e as int]);
            assert(s@.subrange(e as int, e + 1) =~= seq![',']);
            assert(s@.subrange(i + 1, e + 1) == ser_items(shape@, newdv) + seq![',']);
            assert forall|items2: Seq<Seq<FieldValV>>, j2: int|
                arr_at(s@, i as int, j2, shape@, items2) implies {
                &&& items2.len() > newdv.len()
                &&& items2.subrange(0, newdv.len() as int) == newdv
                &&& e + 1 <= j2 <= s@.len()
                &&& s@.subrange(e + 1, j2) == ser_items(shape@, items2.skip(newdv.len() as int))
                    + seq![']']
            } by {
                let tailitems = items2.skip(k);
                assert forall|m: int| 0 <= m < tailitems.len() implies aligned(
                    shape@,
                    #[trigger] tailitems[m],
                ) by {
                    assert(tailitems[m] == items2[k + m]);
                }
                lemma_items_head(s@, cur as int, j2, shape@, tailitems);
                assert(tailitems[0] == vals.deep_view());
                assert(cur + ser_seg(shape@, tailitems[0]).len() == e);
                if tailitems.len() == 1 {
                    assert(s@[e as int] == ']');
                    assert(false);
                }
                assert(items2.len() > k + 1);
                assert(tailitems.drop_first() =~= items2.skip(k + 1));
                assert(s@.subrange(e + 1, j2) == ser_items(shape@, items2.skip(k + 1)) + seq![']']);
                assert forall|m: int| 0 <= m < k + 1 implies items2.subrange(0, k + 1)[m]
                    == newdv[m] by {
                    if m < k {
                        assert(items2.subrange(0, k)[m] == items2[m]);
                    } else {
                        assert(tailitems[0] == items2[k]);
                    }
                }
                assert(items2.subrange(0, k + 1) =~= newdv);
            }
            assert forall|m: int| 0 <= m < newdv.len() implies aligned(
                shape@,
                #[trigger] newdv[m],
            ) by {
                if m < k {
                    assert(newdv[m] == olddv[m]);
                }
            }
        }
        cur = e + 1;
    }
}


proof fn lemma_cons_eq_items(v1: Seq<Seq<FieldValV>>, v2: Seq<Seq<FieldValV>>)
    requires
        v1.len() > 0,
        v2.len() > 0,
        v1[0] == v2[0],
        v1.drop_first() == v2.drop_first(),
    ensures
        v1 == v2,
{
    assert(v1.drop_first() == v1.subrange(1, v1.len() as int));
    assert(v2.drop_first() == v2.subrange(1, v2.len() as int));
    assert forall|m: int| 0 <= m < v1.len() implies v1[m] == v2[m] by {
        if m > 0 {
            assert(v1.subrange(1, v1.len() as int)[m - 1] == v1[m]);
            assert(v2.subrange(1, v2.len() as int)[m - 1] == v2[m]);
        }
    }
    assert(v1 =~= v2);
}

proof fn lemma_items_unique(
    s: Seq<char>,
    cur: int,
    j1: int,
    j2: int,
    shape: Seq<ShapeTok>,
    x1: Seq<Seq<FieldValV>>,
    x2: Seq<Seq<FieldValV>>,
)
    requires
        0 <= cur <= j1 <= s.len(),
        0 <= cur <= j2 <= s.len(),
        forall|k: int| 0 <= k < x1.len() ==> aligned(shape, #[trigger] x1[k]),
        forall|k: int| 0 <= k < x2.len() ==> aligned(shape, #[trigger] x2[k]),
        s.subrange(cur, j1) == ser_items(shape, x1) + seq![']'],
        s.subrange(cur, j2) == ser_items(shape, x2) + seq![']'],
        shape_ok(shape),
        shape.len() > 0,
        head_opens(shape),
    ensures
        j1 == j2,
        x1 == x2,
    decreases x1.len(),
{
    if x1.len() == 0 {
        assert(s.subrange(cur, j1) =~= seq![']']);
        assert(s.subrange(cur, j1)[0] == s[cur]);
        assert(s[cur] == ']');
        if x2.len() > 0 {
            lemma_items_head(s, cur, j2, shape, x2);
            lemma_seg_first_char(s, cur, cur + ser_seg(shape, x2[0]).len(), shape, x2[0]);
            assert(false);
        }
        assert(x1 =~= x2);
        assert(s.subrange(cur, j2).len() == j2 - cur);
    } else if x2.len() == 0 {
        assert(s.subrange(cur, j2) =~= seq![']']);
        assert(s.subrange(cur, j2)[0] == s[cur]);
        assert(s[cur] == ']');
        lemma_items_head(s, cur, j1, shape, x1);
        lemma_seg_first_char(s, cur, cur + ser_seg(shape, x1[0]).len(), shape, x1[0]);
        assert(false);
    } else {
        lemma_items_head(s, cur, j1, shape, x1);
        lemma_items_head(s, cur, j2, shape, x2);
        let e1 = cur + ser_seg(shape, x1[0]).len();
        let e2 = cur + ser_seg(shape, x2[0]).len();
        lemma_seg_unique(s, cur, e1, e2, shape, x1[0], x2[0]);
        let e = e1;
        if x1.len() == 1 && x2.len() == 1 {
            assert(x1 =~= x2);
        } else if x1.len() == 1 {
            assert(s[e] == ']');
            assert(s[e] == ',');
            assert(false);
        } else if x2.len() == 1 {
            assert(s[e] == ']');
            assert(s[e] == ',');
            assert(false);
        } else {
            assert forall|k: int| 0 <= k < x1.drop_first().len() implies aligned(
                shape,
                #[trigger] x1.drop_first()[k],
            ) by {
                assert(x1.drop_first()[k] == x1[k + 1]);
            }
            assert forall|k: int| 0 <= k < x2.drop_first().len() implies aligned(
                shape,
                #[trigger] x2.drop_first()[k],
            ) by {
                assert(x2.drop_first()[k] == x2[k + 1]);
            }
            lemma_items_unique(s, e + 1, j1, j2, shape, x1.drop_first(), x2.drop_first());
            lemma_cons_eq_items(x1, x2);
        }
    }
}

/// An array of a fixed item shape is unambiguous: two readings at the
/// same start agree on the items and on the end.
pub proof fn lemma_arr_unique(
    s: Seq<char>,
    i: int,
    j1: int,
    j2: int,
    shape: Seq<ShapeTok>,
    x1: Seq<Seq<FieldValV>>,
    x2: Seq<Seq<FieldValV>>,
)
    requires
        arr_at(s, i, j1, shape, x1),
        arr_at(s, i, j2, shape, x2),
        shape_ok(shape),
        shape.len() > 0,
        head_opens(shape),
    ensures
        j1 == j2,
        x1 == x2,
{
    assert(seq!['['] + ser_items(shape, x1) + seq![']'] =~= seq!['['] + (ser_items(shape, x1)
        + seq![']']));
    assert(seq!['['] + ser_items(shape, x2) + seq![']'] =~= seq!['['] + (ser_items(shape, x2)
        + seq![']']));
    lemma_split_two(s, i, j1, seq!['['], ser_items(shape, x1) + seq![']']);
    lemma_split_two(s, i, j2, seq!['['], ser_items(shape, x2) + seq![']']);
    lemma_items_unique(s, i + 1, j1, j2, shape, x1, x2);
}

} // verus!
