//! The decoders: one exact decode path per message category, the
//! classifier, and the combined `parse` entry point.

use vstd::prelude::*;
use crate::model::{
    Attributes, BitmexMessage, CategoryTag, DeleteEntry, DeleteMessage, Filter, ForeignKeys,
    InfoMessage, InsertEntry, InsertMessage, Limit, ParseError, Request, SnapshotMessage,
    SubscribeMessage, TradeAttributes, TradeEntry, TradeMessage, TradeSnapshotMessage, TradeTypes,
    Types, UpdateEntry, UpdateMessage,
};
use crate::model::{
    BitmexMessageV, DeleteMessageV, InfoMessageV, InsertMessageV, SnapshotMessageV,
    SubscribeMessageV, TradeMessageV, TradeSnapshotMessageV, UpdateMessageV,
};
use crate::pieces::{
    aligned, arr_at, head_opens, mk_pieces, parse_arr, seg_at, ser_pieces, ser_seg, shape_ok,
    val_num, val_quant, val_text, val_truth, walk, FieldVal, FieldValV, Piece, ShapeTok,
};
use crate::scan::{expect_lit, lemma_glue_two, lemma_split_two};
use crate::pieces::{lemma_arr_unique, lemma_seg_unique};
use crate::wire::{
    arr_text, del_entry_shape, del_entry_vals, del_items, delete_at, info_at, info_shape,
    info_vals, ins_entry_shape, ins_entry_vals, ins_items, insert_at, msg_at, ser_delete, ser_info,
    ser_insert, ser_snapshot, ser_subscribe, ser_trade, ser_tsnapshot, ser_update, snap_mid_shape,
    snap_mid_vals, snapshot_at, spec_classify, subscribe_at, subscribe_shape, subscribe_vals,
    tag_of, text_item_shape, text_items, trade_at, trade_entry_shape, trade_entry_vals,
    trade_items, tsnap_mid_shape, tsnap_mid_vals, tsnapshot_at, update_at, upd_entry_shape,
    upd_entry_vals, upd_items, wf_delete, wf_info, wf_insert, wf_snapshot, wf_subscribe, wf_trade,
    wf_tsnapshot, wf_update,
};

verus! {

// --- value extraction ---------------------------------------------------

fn take_text(vals: &Vec<FieldVal>, k: usize) -> (r: String)
    requires
        k < vals@.len(),
        vals.deep_view()[k as int] is S,
    ensures
        r@ == val_text(vals.deep_view()[k as int]),
{
    proof {
        assert(vals.deep_view()[k as int] == vals@[k as int].deep_view());
    }
    match &vals[k] {
        FieldVal::S(x) => x.clone(),
        _ => {
            proof {
                assert(false);
            }
            unreached()
        },
    }
}

fn take_num(vals: &Vec<FieldVal>, k: usize) -> (r: i64)
    requires
        k < vals@.len(),
        vals.deep_view()[k as int] is N,
    ensures
        r as int == val_num(vals.deep_view()[k as int]),
{
    proof {
        assert(vals.deep_view()[k as int] == vals@[k as int].deep_view());
    }
    match &vals[k] {
        FieldVal::N(x) => *x,
        _ => {
            proof {
                assert(false);
            }
            unreached()
        },
    }
}

fn take_quant(vals: &Vec<FieldVal>, k: usize) -> (r: crate::model::Decimal)
    requires
        k < vals@.len(),
        vals.deep_view()[k as int] is D,
    ensures
        r == val_quant(vals.deep_view()[k as int]),
{
    proof {
        assert(vals.deep_view()[k as int] == vals@[k as int].deep_view());
    }
    match &vals[k] {
        FieldVal::D(x) => *x,
        _ => {
            proof {
                assert(false);
            }
            unreached()
        },
    }
}

fn take_truth(vals: &Vec<FieldVal>, k: usize) -> (r: bool)
    requires
        k < vals@.len(),
        vals.deep_view()[k as int] is B,
    ensures
        r == val_truth(vals.deep_view()[k as int]),
{
    proof {
        assert(vals.deep_view()[k as int] == vals@[k as int].deep_view());
    }
    match &vals[k] {
        FieldVal::B(x) => *x,
        _ => {
            proof {
                assert(false);
            }
            unreached()
        },
    }
}

// --- the info decoder ---------------------------------------------------

fn info_shape_vec() -> (v: Vec<ShapeTok>)
    ensures
        v@ == info_shape(),
        shape_ok(v@),
{
    let mut v: Vec<ShapeTok> = Vec::new();
    v.push(ShapeTok::LitTok("{\"info\":"));
    v.push(ShapeTok::TextTok);
    v.push(ShapeTok::LitTok(",\"version\":"));
    v.push(ShapeTok::TextTok);
    v.push(ShapeTok::LitTok(",\"timestamp\":"));
    v.push(ShapeTok::TextTok);
    v.push(ShapeTok::LitTok(",\"docs\":"));
    v.push(ShapeTok::TextTok);
    v.push(ShapeTok::LitTok(",\"limit\":{\"remaining\":"));
    v.push(ShapeTok::NumTok);
    v.push(ShapeTok::LitTok("}}"));
    proof {
        assert(v@ =~= info_shape());
        reveal_strlit("}}");
        assert(shape_ok(v@)) by {
            assert forall|k: int|
                0 <= k < v@.len() && ((#[trigger] v@[k]) is NumTok || v@[k] is QuantTok) implies k
                + 1 < v@.len() && crate::pieces::delim_ok(v@[k + 1]) by {
                assert(k == 9);
            }
        }
    }
    v
}

proof fn lemma_info_fields(vals: Seq<FieldValV>)
    requires
        aligned(info_shape(), vals),
    ensures
        vals.len() == 5,
        vals[0] is S,
        vals[1] is S,
        vals[2] is S,
        vals[3] is S,
        vals[4] is N,
{
    reveal_with_fuel(aligned, 12);
}

/// Decode the connection greeting. Exact: it succeeds on precisely the
/// payloads that carry a well-formed greeting, and returns its fields.
pub fn decode_info(s: &str) -> (r: Result<InfoMessage, ParseError>)
    ensures
        r matches Ok(m) ==> info_at(s@, m.deep_view()),
        forall|mv: InfoMessageV| info_at(s@, mv) ==> (r matches Ok(m) && m.deep_view() == mv),
        r is Err ==> r == Err::<InfoMessage, ParseError>(ParseError::Malformed(CategoryTag::Info)),
{
    let shv = info_shape_vec();
    let n = s.unicode_len();
    proof {
        assert(s@.subrange(0, s@.len() as int) =~= s@);
    }
    let res = walk(s, 0, &shv);
    if res.is_none() {
        proof {
            assert forall|mv: InfoMessageV| !info_at(s@, mv) by {
                if info_at(s@, mv) {
                    assert(seg_at(s@, 0, s@.len() as int, info_shape(), info_vals(mv)));
                }
            }
        }
        return Err(ParseError::Malformed(CategoryTag::Info));
    }
    let p = res.unwrap();
    let vals = p.0;
    let end = p.1;
    if end != n {
        proof {
            assert forall|mv: InfoMessageV| !info_at(s@, mv) by {
                if info_at(s@, mv) {
                    assert(seg_at(s@, 0, s@.len() as int, info_shape(), info_vals(mv)));
                }
            }
        }
        return Err(ParseError::Malformed(CategoryTag::Info));
    }
    proof {
        lemma_info_fields(vals.deep_view());
    }
    let remaining64 = take_num(&vals, 4);
    if remaining64 > i32::MAX as i64 || remaining64 < i32::MIN as i64 {
        proof {
            assert forall|mv: InfoMessageV| !info_at(s@, mv) by {
                if info_at(s@, mv) {
                    assert(seg_at(s@, 0, s@.len() as int, info_shape(), info_vals(mv)));
                    assert(info_vals(mv) == vals.deep_view());
                    assert(info_vals(mv)[4] == FieldValV::N(mv.limit.remaining));
                }
            }
        }
        return Err(ParseError::Malformed(CategoryTag::Info));
    }
    let m = InfoMessage {
        info: take_text(&vals, 0),
        version: take_text(&vals, 1),
        timestamp: take_text(&vals, 2),
        docs: take_text(&vals, 3),
        limit: Limit { remaining: remaining64 as i32 },
    };
    proof {
        let dv = vals.deep_view();
        assert(info_vals(m.deep_view()) =~= dv);
        assert(info_at(s@, m.deep_view()));
        assert forall|mv: InfoMessageV| info_at(s@, mv) implies m.deep_view() == mv by {
            assert(seg_at(s@, 0, s@.len() as int, info_shape(), info_vals(mv)));
            assert(info_vals(mv) == dv);
            assert(info_vals(mv)[0] == FieldValV::S(mv.info));
            assert(info_vals(mv)[1] == FieldValV::S(mv.version));
            assert(info_vals(mv)[2] == FieldValV::S(mv.timestamp));
            assert(info_vals(mv)[3] == FieldValV::S(mv.docs));
            assert(info_vals(mv)[4] == FieldValV::N(mv.limit.remaining));
        }
    }
    Ok(m)
}


fn upd_shape_vec() -> (v: Vec<ShapeTok>)
    ensures
        v@ == upd_entry_shape(),
        shape_ok(v@),
        head_opens(v@),
        v@.len() > 0,
{
    let mut v: Vec<ShapeTok> = Vec::new();
    v.push(ShapeTok::LitTok("{\"symbol\":"));
    v.push(ShapeTok::TextTok);
    v.push(ShapeTok::LitTok(",\"id\":"));
    v.push(ShapeTok::NumTok);
    v.push(ShapeTok::LitTok(",\"side\":"));
    v.push(ShapeTok::TextTok);
    v.push(ShapeTok::LitTok(",\"size\":"));
    v.push(ShapeTok::NumTok);
    v.push(ShapeTok::LitTok("}"));
    proof {
        assert(v@ =~= upd_entry_shape());
        reveal_strlit(",\"side\":");
        reveal_strlit("}");
        reveal_strlit("{\"symbol\":");
        assert(shape_ok(v@)) by {
            assert forall|k: int|
                0 <= k < v@.len() && ((#[trigger] v@[k]) is NumTok || v@[k] is QuantTok) implies k
                + 1 < v@.len() && crate::pieces::delim_ok(v@[k + 1]) by {
                assert(k == 3 || k == 7);
            }
        }
    }
    v
}

proof fn lemma_upd_entry_fields(vals: Seq<FieldValV>)
    requires
        aligned(upd_entry_shape(), vals),
    ensures
        vals.len() == 4,
        vals[0] is S,
        vals[1] is N,
        vals[2] is S,
        vals[3] is N,
{
    reveal_with_fuel(aligned, 10);
}

fn upd_entries_from(items: &Vec<Vec<FieldVal>>) -> (r: Vec<UpdateEntry>)
    requires
        forall|k: int|
            0 <= k < items.deep_view().len() ==> aligned(
                upd_entry_shape(),
                #[trigger] items.deep_view()[k],
            ),
    ensures
        upd_items(r.deep_view()) == items.deep_view(),
{
    let mut out: Vec<UpdateEntry> = Vec::new();
    let mut k: usize = 0;
    while k < items.len()
        invariant
            k <= items@.len(),
            items.deep_view().len() == items@.len(),
            out.deep_view().len() == k,
            forall|m: int|
                0 <= m < items.deep_view().len() ==> aligned(
                    upd_entry_shape(),
                    #[trigger] items.deep_view()[m],
                ),
            forall|m: int|
                0 <= m < k ==> upd_entry_vals(#[trigger] out.deep_view()[m]) == items.deep_view()[m],
        decreases items@.len() - k,
    {
        let ev = &items[k];
        proof {
            assert(items.deep_view()[k as int] == items@[k as int].deep_view());
            lemma_upd_entry_fields(ev.deep_view());
        }
        let en = UpdateEntry {
            symbol: take_text(ev, 0),
            id: take_num(ev, 1),
            side: take_text(ev, 2),
            size: take_num(ev, 3),
        };
        proof {
            assert(upd_entry_vals(en.deep_view()) =~= ev.deep_view());
        }
        let ghost olddv = out.deep_view();
        let ghost oldv = out@;
        out.push(en);
        proof {
            assert forall|m: int| 0 <= m < out.deep_view().len() implies #[trigger] out.deep_view()[m]
                == olddv.push(en.deep_view())[m] by {
                if m < k {
                    assert(out@[m] == oldv[m]);
                } else {
                    assert(out@[m] == oldv.push(en)[m]);
                }
            }
            assert(out.deep_view() =~= olddv.push(en.deep_view()));
        }
        k += 1;
    }
    proof {
        assert(upd_items(out.deep_view()) =~= items.deep_view());
    }
    out
}

fn del_shape_vec() -> (v: Vec<ShapeTok>)
    ensures
        v@ == del_entry_shape(),
        shape_ok(v@),
        head_opens(v@),
        v@.len() > 0,
{
    let mut v: Vec<ShapeTok> = Vec::new();
    v.push(ShapeTok::LitTok("{\"symbol\":"));
    v.push(ShapeTok::TextTok);
    v.push(ShapeTok::LitTok(",\"id\":"));
    v.push(ShapeTok::NumTok);
    v.push(ShapeTok::LitTok(",\"side\":"));
    v.push(ShapeTok::TextTok);
    v.push(ShapeTok::LitTok("}"));
    proof {
        assert(v@ =~= del_entry_shape());
        reveal_strlit(",\"side\":");
        reveal_strlit("{\"symbol\":");
        assert(shape_ok(v@)) by {
            assert forall|k: int|
                0 <= k < v@.len() && ((#[trigger] v@[k]) is NumTok || v@[k] is QuantTok) implies k
                + 1 < v@.len() && crate::pieces::delim_ok(v@[k + 1]) by {
                assert(k == 3);
            }
        }
    }
    v
}

proof fn lemma_del_entry_fields(vals: Seq<FieldValV>)
    requires
        aligned(del_entry_shape(), vals),
    ensures
        vals.len() == 3,
        vals[0] is S,
        vals[1] is N,
        vals[2] is S,
{
    reveal_with_fuel(aligned, 8);
}

fn del_entries_from(items: &Vec<Vec<FieldVal>>) -> (r: Vec<DeleteEntry>)
    requires
        forall|k: int|
            0 <= k < items.deep_view().len() ==> aligned(
                del_entry_shape(),
                #[trigger] items.deep_view()[k],
            ),
    ensures
        del_items(r.deep_view()) == items.deep_view(),
{
    let mut out: Vec<DeleteEntry> = Vec::new();
    let mut k: usize = 0;
    while k < items.len()
        invariant
            k <= items@.len(),
            items.deep_view().len() == items@.len(),
            out.deep_view().len() == k,
            forall|m: int|
                0 <= m < items.deep_view().len() ==> aligned(
                    del_entry_shape(),
                    #[trigger] items.deep_view()[m],
                ),
            forall|m: int|
                0 <= m < k ==> del_entry_vals(#[trigger] out.deep_view()[m]) == items.deep_view()[m],
        decreases items@.len() - k,
    {
        let ev = &items[k];
        proof {
            assert(items.deep_view()[k as int] == items@[k as int].deep_view());
            lemma_del_entry_fields(ev.deep_view());
        }
        let en = DeleteEntry {
            symbol: take_text(ev, 0),
            id: take_num(ev, 1),
            side: take_text(ev, 2),
        };
        proof {
            assert(del_entry_vals(en.deep_view()) =~= ev.deep_view());
        }
        let ghost olddv = out.deep_view();
        let ghost oldv = out@;
        out.push(en);
        proof {
            assert forall|m: int| 0 <= m < out.deep_view().len() implies #[trigger] out.deep_view()[m]
                == olddv.push(en.deep_view())[m] by {
                if m < k {
                    assert(out@[m] == oldv[m]);
                } else {
                    assert(out@[m] == oldv.push(en)[m]);
                }
            }
            assert(out.deep_view() =~= olddv.push(en.deep_view()));
        }
        k += 1;
    }
    proof {
        assert(del_items(out.deep_view()) =~= items.deep_view());
    }
    out
}

fn ins_shape_vec() -> (v: Vec<ShapeTok>)
    ensures
        v@ == ins_entry_shape(),
        shape_ok(v@),
        head_opens(v@),
        v@.len() > 0,
{
    let mut v: Vec<ShapeTok> = Vec::new();
    v.push(ShapeTok::LitTok("{\"symbol\":"));
    v.push(ShapeTok::TextTok);
    v.push(ShapeTok::LitTok(",\"id\":"));
    v.push(ShapeTok::NumTok);
    v.push(ShapeTok::LitTok(",\"side\":"));
    v.push(ShapeTok::TextTok);
    v.push(ShapeTok::LitTok(",\"size\":"));
    v.push(ShapeTok::NumTok);
    v.push(ShapeTok::LitTok(",\"price\":"));
    v.push(ShapeTok::QuantTok);
    v.push(ShapeTok::LitTok("}"));
    proof {
        assert(v@ =~= ins_entry_shape());
        reveal_strlit(",\"side\":");
        reveal_strlit(",\"price\":");
        reveal_strlit("}");
        reveal_strlit("{\"symbol\":");
        assert(shape_ok(v@)) by {
            assert forall|k: int|
                0 <= k < v@.len() && ((#[trigger] v@[k]) is NumTok || v@[k] is QuantTok) implies k
                + 1 < v@.len() && crate::pieces::delim_ok(v@[k + 1]) by {
                assert(k == 3 || k == 7 || k == 9);
            }
        }
    }
    v
}

proof fn lemma_ins_entry_fields(vals: Seq<FieldValV>)
    requires
        aligned(ins_entry_shape(), vals),
    ensures
        vals.len() == 5,
        vals[0] is S,
        vals[1] is N,
        vals[2] is S,
        vals[3] is N,
        vals[4] is D,
{
    reveal_with_fuel(aligned, 12);
}

fn ins_entries_from(items: &Vec<Vec<FieldVal>>) -> (r: Vec<InsertEntry>)
    requires
        forall|k: int|
            0 <= k < items.deep_view().len() ==> aligned(
                ins_entry_shape(),
                #[trigger] items.deep_view()[k],
            ),
    ensures
        ins_items(r.deep_view()) == items.deep_view(),
{
    let mut out: Vec<InsertEntry> = Vec::new();
    let mut k: usize = 0;
    while k < items.len()
        invariant
            k <= items@.len(),
            items.deep_view().len() == items@.len(),
            out.deep_view().len() == k,
            forall|m: int|
                0 <= m < items.deep_view().len() ==> aligned(
                    ins_entry_shape(),
                    #[trigger] items.deep_view()[m],
                ),
            forall|m: int|
                0 <= m < k ==> ins_entry_vals(#[trigger] out.deep_view()[m]) == items.deep_view()[m],
        decreases items@.len() - k,
    {
        let ev = &items[k];
        proof {
            assert(items.deep_view()[k as int] == items@[k as int].deep_view());
            lemma_ins_entry_fields(ev.deep_view());
        }
        let en = InsertEntry {
            symbol: take_text(ev, 0),
            id: take_num(ev, 1),
            side: take_text(ev, 2),
            size: take_num(ev, 3),
            price: take_quant(ev, 4),
        };
        proof {
            assert(ins_entry_vals(en.deep_view()) =~= ev.deep_view());
        }
        let ghost olddv = out.deep_view();
        let ghost oldv = out@;
        out.push(en);
        proof {
            assert forall|m: int| 0 <= m < out.deep_view().len() implies #[trigger] out.deep_view()[m]
                == olddv.push(en.deep_view())[m] by {
                if m < k {
                    assert(out@[m] == oldv[m]);
                } else {
                    assert(out@[m] == oldv.push(en)[m]);
                }
            }
            assert(out.deep_view() =~= olddv.push(en.deep_view()));
        }
        k += 1;
    }
    proof {
        assert(ins_items(out.deep_view()) =~= items.deep_view());
    }
    out
}

fn trade_shape_vec() -> (v: Vec<ShapeTok>)
    ensures
        v@ == trade_entry_shape(),
        shape_ok(v@),
        head_opens(v@),
        v@.len() > 0,
{
    let mut v: Vec<ShapeTok> = Vec::new();
    v.push(ShapeTok::LitTok("{\"timestamp\":"));
    v.push(ShapeTok::TextTok);
    v.push(ShapeTok::LitTok(",\"symbol\":"));
    v.push(ShapeTok::TextTok);
    v.push(ShapeTok::LitTok(",\"side\":"));
    v.push(ShapeTok::TextTok);
    v.push(ShapeTok::LitTok(",\"size\":"));
    v.push(ShapeTok::QuantTok);
    v.push(ShapeTok::LitTok(",\"price\":"));
    v.push(ShapeTok::QuantTok);
    v.push(ShapeTok::LitTok(",\"tickDirection\":"));
    v.push(ShapeTok::TextTok);
    v.push(ShapeTok::LitTok(",\"trdMatchID\":"));
    v.push(ShapeTok::TextTok);
    v.push(ShapeTok::LitTok(",\"grossValue\":"));
    v.push(ShapeTok::QuantTok);
    v.push(ShapeTok::LitTok(",\"homeNotional\":"));
    v.push(ShapeTok::QuantTok);
    v.push(ShapeTok::LitTok(",\"foreignNotional\":"));
    v.push(ShapeTok::QuantTok);
    v.push(ShapeTok::LitTok("}"));
    proof {
        assert(v@ =~= trade_entry_shape());
        reveal_strlit(",\"price\":");
        reveal_strlit(",\"tickDirection\":");
        reveal_strlit(",\"homeNotional\":");
        reveal_strlit(",\"foreignNotional\":");
        reveal_strlit("}");
        reveal_strlit("{\"timestamp\":");
        assert(shape_ok(v@)) by {
            assert forall|k: int|
                0 <= k < v@.len() && ((#[trigger] v@[k]) is NumTok || v@[k] is QuantTok) implies k
                + 1 < v@.len() && crate::pieces::delim_ok(v@[k + 1]) by {
                assert(k == 7 || k == 9 || k == 15 || k == 17 || k == 19);
            }
        }
    }
    v
}

#[verifier::rlimit(60)]
proof fn lemma_trade_entry_fields(vals: Seq<FieldValV>)
    requires
        aligned(trade_entry_shape(), vals),
    ensures
        vals.len() == 10,
        vals[0] is S,
        vals[1] is S,
        vals[2] is S,
        vals[3] is D,
        vals[4] is D,
        vals[5] is S,
        vals[6] is S,
        vals[7] is D,
        vals[8] is D,
        vals[9] is D,
{
    reveal_with_fuel(aligned, 22);
}

fn trade_entries_from(items: &Vec<Vec<FieldVal>>) -> (r: Vec<TradeEntry>)
    requires
        forall|k: int|
            0 <= k < items.deep_view().len() ==> aligned(
                trade_entry_shape(),
                #[trigger] items.deep_view()[k],
            ),
    ensures
        trade_items(r.deep_view()) == items.deep_view(),
{
    let mut out: Vec<TradeEntry> = Vec::new();
    let mut k: usize = 0;
    while k < items.len()
        invariant
            k <= items@.len(),
            items.deep_view().len() == items@.len(),
            out.deep_view().len() == k,
            forall|m: int|
                0 <= m < items.deep_view().len() ==> aligned(
                    trade_entry_shape(),
                    #[trigger] items.deep_view()[m],
                ),
            forall|m: int|
                0 <= m < k ==> trade_entry_vals(#[trigger] out.deep_view()[m]) == items.deep_view()[m],
        decreases items@.len() - k,
    {
        let ev = &items[k];
        proof {
            assert(items.deep_view()[k as int] == items@[k as int].deep_view());
            lemma_trade_entry_fields(ev.deep_view());
        }
        let en = TradeEntry {
            timestamp: take_text(ev, 0),
            symbol: take_text(ev, 1),
            side: take_text(ev, 2),
            size: take_quant(ev, 3),
            price: take_quant(ev, 4),
            tick_direction: take_text(ev, 5),
            trd_match_id: take_text(ev, 6),
            gross_value: take_quant(ev, 7),
            home_notional: take_quant(ev, 8),
            foreign_notional: take_quant(ev, 9),
        };
        proof {
            assert(trade_entry_vals(en.deep_view()) =~= ev.deep_view());
        }
        let ghost olddv = out.deep_view();
        let ghost oldv = out@;
        out.push(en);
        proof {
            assert forall|m: int| 0 <= m < out.deep_view().len() implies #[trigger] out.deep_view()[m]
                == olddv.push(en.deep_view())[m] by {
                if m < k {
                    assert(out@[m] == oldv[m]);
                } else {
                    assert(out@[m] == oldv.push(en)[m]);
                }
            }
            assert(out.deep_view() =~= olddv.push(en.deep_view()));
        }
        k += 1;
    }
    proof {
        assert(trade_items(out.deep_view()) =~= items.deep_view());
    }
    out
}

fn text_item_shape_vec() -> (v: Vec<ShapeTok>)
    ensures
        v@ == text_item_shape(),
        shape_ok(v@),
        head_opens(v@),
        v@.len() > 0,
{
    let mut v: Vec<ShapeTok> = Vec::new();
    v.push(ShapeTok::TextTok);
    proof {
        assert(v@ =~= text_item_shape());
        assert(shape_ok(v@)) by {
            assert forall|k: int|
                0 <= k < v@.len() && ((#[trigger] v@[k]) is NumTok || v@[k] is QuantTok) implies k
                + 1 < v@.len() && crate::pieces::delim_ok(v@[k + 1]) by {
                assert(v@[k] == ShapeTok::TextTok);
            }
        }
    }
    v
}

proof fn lemma_text_item_fields(vals: Seq<FieldValV>)
    requires
        aligned(text_item_shape(), vals),
    ensures
        vals.len() == 1,
        vals[0] is S,
{
    reveal_with_fuel(aligned, 3);
}

fn texts_from(items: &Vec<Vec<FieldVal>>) -> (r: Vec<String>)
    requires
        forall|k: int|
            0 <= k < items.deep_view().len() ==> aligned(
                text_item_shape(),
                #[trigger] items.deep_view()[k],
            ),
    ensures
        text_items(r.deep_view()) == items.deep_view(),
{
    let mut out: Vec<String> = Vec::new();
    let mut k: usize = 0;
    while k < items.len()
        invariant
            k <= items@.len(),
            items.deep_view().len() == items@.len(),
            out.deep_view().len() == k,
            forall|m: int|
                0 <= m < items.deep_view().len() ==> aligned(
                    text_item_shape(),
                    #[trigger] items.deep_view()[m],
                ),
            forall|m: int|
                0 <= m < k ==> seq![FieldValV::S(#[trigger] out.deep_view()[m])]
                    == items.deep_view()[m],
        decreases items@.len() - k,
    {
        let ev = &items[k];
        proof {
            assert(items.deep_view()[k as int] == items@[k as int].deep_view());
            lemma_text_item_fields(ev.deep_view());
        }
        let w = take_text(ev, 0);
        proof {
            assert(seq![FieldValV::S(w@)] =~= ev.deep_view());
        }
        let ghost olddv = out.deep_view();
        let ghost oldv = out@;
        out.push(w);
        proof {
            assert forall|m: int| 0 <= m < out.deep_view().len() implies #[trigger] out.deep_view()[m]
                == olddv.push(oldv.push(out@[k as int]).last()@)[m] by {
                if m < k {
                    assert(out@[m] == oldv[m]);
                }
            }
            assert(out.deep_view() =~= olddv.push(out@[k as int]@));
        }
        k += 1;
    }
    proof {
        assert(text_items(out.deep_view()) =~= items.deep_view());
    }
    out
}


/// Decode one update message. Exact: it succeeds on precisely the
/// payloads that carry a well-formed record of this category.
pub fn decode_update(s: &str) -> (r: Result<UpdateMessage, ParseError>)
    ensures
        r matches Ok(m) ==> update_at(s@, m.deep_view()),
        forall|mv: UpdateMessageV| update_at(s@, mv) ==> (r matches Ok(m) && m.deep_view() == mv),
        r is Err ==> r == Err::<UpdateMessage, ParseError>(ParseError::Malformed(CategoryTag::Update)),
{
    let n = s.unicode_len();
    proof {
        assert(s@.subrange(0, s@.len() as int) =~= s@);
        reveal_strlit("}");
    }
    let l1 = expect_lit(s, 0, "{\"table\":\"orderBookL2\",\"action\":\"update\",\"data\":");
    if l1.is_none() {
        proof {
            assert forall|mv: UpdateMessageV| !update_at(s@, mv) by {
                if update_at(s@, mv) {
                    lemma_split_two(
                        s@,
                        0,
                        s@.len() as int,
                        "{\"table\":\"orderBookL2\",\"action\":\"update\",\"data\":"@,
                        arr_text(upd_entry_shape(), upd_items(mv.data)) + "}"@,
                    );
                }
            }
        }
        return Err(ParseError::Malformed(CategoryTag::Update));
    }
    let j1 = l1.unwrap();
    let shv = upd_shape_vec();
    let ares = parse_arr(s, j1, &shv);
    if ares.is_none() {
        proof {
            assert forall|mv: UpdateMessageV| !update_at(s@, mv) by {
                if update_at(s@, mv) {
                    let atext = arr_text(upd_entry_shape(), upd_items(mv.data));
                    lemma_split_two(s@, 0, s@.len() as int, "{\"table\":\"orderBookL2\",\"action\":\"update\",\"data\":"@, atext + "}"@);
                    lemma_split_two(s@, j1 as int, s@.len() as int, atext, "}"@);
                    assert(arr_at(
                        s@,
                        j1 as int,
                        j1 + atext.len(),
                        upd_entry_shape(),
                        upd_items(mv.data),
                    ));
                }
            }
        }
        return Err(ParseError::Malformed(CategoryTag::Update));
    }
    let ap = ares.unwrap();
    let items = ap.0;
    let j2 = ap.1;
    let l2 = expect_lit(s, j2, "}");
    let bad_tail = match l2 {
        Some(j3) => j3 != n,
        None => true,
    };
    if bad_tail {
        proof {
            assert forall|mv: UpdateMessageV| !update_at(s@, mv) by {
                if update_at(s@, mv) {
                    let atext = arr_text(upd_entry_shape(), upd_items(mv.data));
                    lemma_split_two(s@, 0, s@.len() as int, "{\"table\":\"orderBookL2\",\"action\":\"update\",\"data\":"@, atext + "}"@);
                    lemma_split_two(s@, j1 as int, s@.len() as int, atext, "}"@);
                    assert(arr_at(
                        s@,
                        j1 as int,
                        j1 + atext.len(),
                        upd_entry_shape(),
                        upd_items(mv.data),
                    ));
                    assert(j1 + atext.len() == j2);
                    assert(s@.subrange(j2 as int, s@.len() as int) == "}"@);
                    assert(s@.len() == j2 + 1);
                }
            }
        }
        return Err(ParseError::Malformed(CategoryTag::Update));
    }
    let data = upd_entries_from(&items);
    let m = UpdateMessage {
        table: String::from_str("orderBookL2"),
        action: String::from_str("update"),
        data,
    };
    proof {
        let mdv = m.deep_view();
        assert(upd_items(mdv.data) == items.deep_view());
        assert(wf_update(mdv)) by {
            assert forall|k: int| 0 <= k < upd_items(mdv.data).len() implies aligned(
                upd_entry_shape(),
                #[trigger] upd_items(mdv.data)[k],
            ) by {
                assert(upd_items(mdv.data)[k] == items.deep_view()[k]);
            }
        }
        lemma_glue_two(s@, 0, j1 as int, s@.len() as int);
        lemma_glue_two(s@, j1 as int, j2 as int, s@.len() as int);
        assert(s@.subrange(0, j1 as int) == "{\"table\":\"orderBookL2\",\"action\":\"update\",\"data\":"@);
        assert(s@.subrange(j1 as int, j2 as int) == arr_text(
            upd_entry_shape(),
            items.deep_view(),
        ));
        assert(s@.subrange(j2 as int, s@.len() as int) == "}"@);
        assert(s@ == ser_update(mdv));
        assert(update_at(s@, mdv));
        assert forall|mv: UpdateMessageV| update_at(s@, mv) implies mdv == mv by {
            let atext = arr_text(upd_entry_shape(), upd_items(mv.data));
            lemma_split_two(s@, 0, s@.len() as int, "{\"table\":\"orderBookL2\",\"action\":\"update\",\"data\":"@, atext + "}"@);
            lemma_split_two(s@, j1 as int, s@.len() as int, atext, "}"@);
            assert(arr_at(
                s@,
                j1 as int,
                j1 + atext.len(),
                upd_entry_shape(),
                upd_items(mv.data),
            ));
            assert(upd_items(mv.data) == items.deep_view());
            assert forall|k: int| 0 <= k < mv.data.len() implies mv.data[k] == mdv.data[k] by {
                assert(upd_items(mv.data)[k] == upd_entry_vals(mv.data[k]));
                assert(upd_items(mdv.data)[k] == upd_entry_vals(mdv.data[k]));
                let a = upd_entry_vals(mv.data[k]);
                let b = upd_entry_vals(mdv.data[k]);
                assert(a[0] == FieldValV::S(mv.data[k].symbol));
                assert(a[1] == FieldValV::N(mv.data[k].id));
                assert(a[2] == FieldValV::S(mv.data[k].side));
                assert(a[3] == FieldValV::N(mv.data[k].size));
            }
            assert(mv.data =~= mdv.data);
        }
    }
    Ok(m)
}

/// Decode one delete message. Exact: it succeeds on precisely the
/// payloads that carry a well-formed record of this category.
pub fn decode_delete(s: &str) -> (r: Result<DeleteMessage, ParseError>)
    ensures
        r matches Ok(m) ==> delete_at(s@, m.deep_view()),
        forall|mv: DeleteMessageV| delete_at(s@, mv) ==> (r matches Ok(m) && m.deep_view() == mv),
        r is Err ==> r == Err::<DeleteMessage, ParseError>(ParseError::Malformed(CategoryTag::Delete)),
{
    let n = s.unicode_len();
    proof {
        assert(s@.subrange(0, s@.len() as int) =~= s@);
        reveal_strlit("}");
    }
    let l1 = expect_lit(s, 0, "{\"table\":\"orderBookL2\",\"action\":\"delete\",\"data\":");
    if l1.is_none() {
        proof {
            assert forall|mv: DeleteMessageV| !delete_at(s@, mv) by {
                if delete_at(s@, mv) {
                    lemma_split_two(
                        s@,
                        0,
                        s@.len() as int,
                        "{\"table\":\"orderBookL2\",\"action\":\"delete\",\"data\":"@,
                        arr_text(del_entry_shape(), del_items(mv.data)) + "}"@,
                    );
                }
            }
        }
        return Err(ParseError::Malformed(CategoryTag::Delete));
    }
    let j1 = l1.unwrap();
    let shv = del_shape_vec();
    let ares = parse_arr(s, j1, &shv);
    if ares.is_none() {
        proof {
            assert forall|mv: DeleteMessageV| !delete_at(s@, mv) by {
                if delete_at(s@, mv) {
                    let atext = arr_text(del_entry_shape(), del_items(mv.data));
                    lemma_split_two(s@, 0, s@.len() as int, "{\"table\":\"orderBookL2\",\"action\":\"delete\",\"data\":"@, atext + "}"@);
                    lemma_split_two(s@, j1 as int, s@.len() as int, atext, "}"@);
                    assert(arr_at(
                        s@,
                        j1 as int,
                        j1 + atext.len(),
                        del_entry_shape(),
                        del_items(mv.data),
                    ));
                }
            }
        }
        return Err(ParseError::Malformed(CategoryTag::Delete));
    }
    let ap = ares.unwrap();
    let items = ap.0;
    let j2 = ap.1;
    let l2 = expect_lit(s, j2, "}");
    let bad_tail = match l2 {
        Some(j3) => j3 != n,
        None => true,
    };
    if bad_tail {
        proof {
            assert forall|mv: DeleteMessageV| !delete_at(s@, mv) by {
                if delete_at(s@, mv) {
                    let atext = arr_text(del_entry_shape(), del_items(mv.data));
                    lemma_split_two(s@, 0, s@.len() as int, "{\"table\":\"orderBookL2\",\"action\":\"delete\",\"data\":"@, atext + "}"@);
                    lemma_split_two(s@, j1 as int, s@.len() as int, atext, "}"@);
                    assert(arr_at(
                        s@,
                        j1 as int,
                        j1 + atext.len(),
                        del_entry_shape(),
                        del_items(mv.data),
                    ));
                    assert(j1 + atext.len() == j2);
                    assert(s@.subrange(j2 as int, s@.len() as int) == "}"@);
                    assert(s@.len() == j2 + 1);
                }
            }
        }
        return Err(ParseError::Malformed(CategoryTag::Delete));
    }
    let data = del_entries_from(&items);
    let m = DeleteMessage {
        table: String::from_str("orderBookL2"),
        action: String::from_str("delete"),
        data,
    };
    proof {
        let mdv = m.deep_view();
        assert(del_items(mdv.data) == items.deep_view());
        assert(wf_delete(mdv)) by {
            assert forall|k: int| 0 <= k < del_items(mdv.data).len() implies aligned(
                del_entry_shape(),
                #[trigger] del_items(mdv.data)[k],
            ) by {
                assert(del_items(mdv.data)[k] == items.deep_view()[k]);
            }
        }
        lemma_glue_two(s@, 0, j1 as int, s@.len() as int);
        lemma_glue_two(s@, j1 as int, j2 as int, s@.len() as int);
        assert(s@.subrange(0, j1 as int) == "{\"table\":\"orderBookL2\",\"action\":\"delete\",\"data\":"@);
        assert(s@.subrange(j1 as int, j2 as int) == arr_text(
            del_entry_shape(),
            items.deep_view(),
        ));
        assert(s@.subrange(j2 as int, s@.len() as int) == "}"@);
        assert(s@ == ser_delete(mdv));
        assert(delete_at(s@, mdv));
        assert forall|mv: DeleteMessageV| delete_at(s@, mv) implies mdv == mv by {
            let atext = arr_text(del_entry_shape(), del_items(mv.data));
            lemma_split_two(s@, 0, s@.len() as int, "{\"table\":\"orderBookL2\",\"action\":\"delete\",\"data\":"@, atext + "}"@);
            lemma_split_two(s@, j1 as int, s@.len() as int, atext, "}"@);
            assert(arr_at(
                s@,
                j1 as int,
                j1 + atext.len(),
                del_entry_shape(),
                del_items(mv.data),
            ));
            assert(del_items(mv.data) == items.deep_view());
            assert forall|k: int| 0 <= k < mv.data.len() implies mv.data[k] == mdv.data[k] by {
                assert(del_items(mv.data)[k] == del_entry_vals(mv.data[k]));
                assert(del_items(mdv.data)[k] == del_entry_vals(mdv.data[k]));
                let a = del_entry_vals(mv.data[k]);
                let b = del_entry_vals(mdv.data[k]);
                assert(a[0] == FieldValV::S(mv.data[k].symbol));
                assert(a[1] == FieldValV::N(mv.data[k].id));
                assert(a[2] == FieldValV::S(mv.data[k].side));
            }
            assert(mv.data =~= mdv.data);
        }
    }
    Ok(m)
}

/// Decode one insert message. Exact: it succeeds on precisely the
/// payloads that carry a well-formed record of this category.
pub fn decode_insert(s: &str) -> (r: Result<InsertMessage, ParseError>)
    ensures
        r matches Ok(m) ==> insert_at(s@, m.deep_view()),
        forall|mv: InsertMessageV| insert_at(s@, mv) ==> (r matches Ok(m) && m.deep_view() == mv),
        r is Err ==> r == Err::<InsertMessage, ParseError>(ParseError::Malformed(CategoryTag::Insert)),
{
    let n = s.unicode_len();
    proof {
        assert(s@.subrange(0, s@.len() as int) =~= s@);
        reveal_strlit("}");
    }
    let l1 = expect_lit(s, 0, "{\"table\":\"orderBookL2\",\"action\":\"insert\",\"data\":");
    if l1.is_none() {
        proof {
            assert forall|mv: InsertMessageV| !insert_at(s@, mv) by {
                if insert_at(s@, mv) {
                    lemma_split_two(
                        s@,
                        0,
                        s@.len() as int,
                        "{\"table\":\"orderBookL2\",\"action\":\"insert\",\"data\":"@,
                        arr_text(ins_entry_shape(), ins_items(mv.data)) + "}"@,
                    );
                }
            }
        }
        return Err(ParseError::Malformed(CategoryTag::Insert));
    }
    let j1 = l1.unwrap();
    let shv = ins_shape_vec();
    let ares = parse_arr(s, j1, &shv);
    if ares.is_none() {
        proof {
            assert forall|mv: InsertMessageV| !insert_at(s@, mv) by {
                if insert_at(s@, mv) {
                    let atext = arr_text(ins_entry_shape(), ins_items(mv.data));
                    lemma_split_two(s@, 0, s@.len() as int, "{\"table\":\"orderBookL2\",\"action\":\"insert\",\"data\":"@, atext + "}"@);
                    lemma_split_two(s@, j1 as int, s@.len() as int, atext, "}"@);
                    assert(arr_at(
                        s@,
                        j1 as int,
                        j1 + atext.len(),
                        ins_entry_shape(),
                        ins_items(mv.data),
                    ));
                }
            }
        }
        return Err(ParseError::Malformed(CategoryTag::Insert));
    }
    let ap = ares.unwrap();
    let items = ap.0;
    let j2 = ap.1;
    let l2 = expect_lit(s, j2, "}");
    let bad_tail = match l2 {
        Some(j3) => j3 != n,
        None => true,
    };
    if bad_tail {
        proof {
            assert forall|mv: InsertMessageV| !insert_at(s@, mv) by {
                if insert_at(s@, mv) {
                    let atext = arr_text(ins_entry_shape(), ins_items(mv.data));
                    lemma_split_two(s@, 0, s@.len() as int, "{\"table\":\"orderBookL2\",\"action\":\"insert\",\"data\":"@, atext + "}"@);
                    lemma_split_two(s@, j1 as int, s@.len() as int, atext, "}"@);
                    assert(arr_at(
                        s@,
                        j1 as int,
                        j1 + atext.len(),
                        ins_entry_shape(),
                        ins_items(mv.data),
                    ));
                    assert(j1 + atext.len() == j2);
                    assert(s@.subrange(j2 as int, s@.len() as int) == "}"@);
                    assert(s@.len() == j2 + 1);
                }
            }
        }
        return Err(ParseError::Malformed(CategoryTag::Insert));
    }
    let data = ins_entries_from(&items);
    let m = InsertMessage {
        table: String::from_str("orderBookL2"),
        action: String::from_str("insert"),
        data,
    };
    proof {
        let mdv = m.deep_view();
        assert(ins_items(mdv.data) == items.deep_view());
        assert(wf_insert(mdv)) by {
            assert forall|k: int| 0 <= k < ins_items(mdv.data).len() implies aligned(
                ins_entry_shape(),
                #[trigger] ins_items(mdv.data)[k],
            ) by {
                assert(ins_items(mdv.data)[k] == items.deep_view()[k]);
            }
        }
        lemma_glue_two(s@, 0, j1 as int, s@.len() as int);
        lemma_glue_two(s@, j1 as int, j2 as int, s@.len() as int);
        assert(s@.subrange(0, j1 as int) == "{\"table\":\"orderBookL2\",\"action\":\"insert\",\"data\":"@);
        assert(s@.subrange(j1 as int, j2 as int) == arr_text(
            ins_entry_shape(),
            items.deep_view(),
        ));
        assert(s@.subrange(j2 as int, s@.len() as int) == "}"@);
        assert(s@ == ser_insert(mdv));
        assert(insert_at(s@, mdv));
        assert forall|mv: InsertMessageV| insert_at(s@, mv) implies mdv == mv by {
            let atext = arr_text(ins_entry_shape(), ins_items(mv.data));
            lemma_split_two(s@, 0, s@.len() as int, "{\"table\":\"orderBookL2\",\"action\":\"insert\",\"data\":"@, atext + "}"@);
            lemma_split_two(s@, j1 as int, s@.len() as int, atext, "}"@);
            assert(arr_at(
                s@,
                j1 as int,
                j1 + atext.len(),
                ins_entry_shape(),
                ins_items(mv.data),
            ));
            assert(ins_items(mv.data) == items.deep_view());
            assert forall|k: int| 0 <= k < mv.data.len() implies mv.data[k] == mdv.data[k] by {
                assert(ins_items(mv.data)[k] == ins_entry_vals(mv.data[k]));
                assert(ins_items(mdv.data)[k] == ins_entry_vals(mdv.data[k]));
                let a = ins_entry_vals(mv.data[k]);
                let b = ins_entry_vals(mdv.data[k]);
                assert(a[0] == FieldValV::S(mv.data[k].symbol));
                assert(a[1] == FieldValV::N(mv.data[k].id));
                assert(a[2] == FieldValV::S(mv.data[k].side));
                assert(a[3] == FieldValV::N(mv.data[k].size));
                assert(a[4] == FieldValV::D(mv.data[k].price));
            }
            assert(mv.data =~= mdv.data);
        }
    }
    Ok(m)
}

/// Decode one trade message. Exact: it succeeds on precisely the
/// payloads that carry a well-formed record of this category.
pub fn decode_trade(s: &str) -> (r: Result<TradeMessage, ParseError>)
    ensures
        r matches Ok(m) ==> trade_at(s@, m.deep_view()),
        forall|mv: TradeMessageV| trade_at(s@, mv) ==> (r matches Ok(m) && m.deep_view() == mv),
        r is Err ==> r == Err::<TradeMessage, ParseError>(ParseError::Malformed(CategoryTag::Trade)),
{
    let n = s.unicode_len();
    proof {
        assert(s@.subrange(0, s@.len() as int) =~= s@);
        reveal_strlit("}");
    }
    let l1 = expect_lit(s, 0, "{\"table\":\"trade\",\"action\":\"insert\",\"data\":");
    if l1.is_none() {
        proof {
            assert forall|mv: TradeMessageV| !trade_at(s@, mv) by {
                if trade_at(s@, mv) {
                    lemma_split_two(
                        s@,
                        0,
                        s@.len() as int,
                        "{\"table\":\"trade\",\"action\":\"insert\",\"data\":"@,
                        arr_text(trade_entry_shape(), trade_items(mv.data)) + "}"@,
                    );
                }
            }
        }
        return Err(ParseError::Malformed(CategoryTag::Trade));
    }
    let j1 = l1.unwrap();
    let shv = trade_shape_vec();
    let ares = parse_arr(s, j1, &shv);
    if ares.is_none() {
        proof {
            assert forall|mv: TradeMessageV| !trade_at(s@, mv) by {
                if trade_at(s@, mv) {
                    let atext = arr_text(trade_entry_shape(), trade_items(mv.data));
                    lemma_split_two(s@, 0, s@.len() as int, "{\"table\":\"trade\",\"action\":\"insert\",\"data\":"@, atext + "}"@);
                    lemma_split_two(s@, j1 as int, s@.len() as int, atext, "}"@);
                    assert(arr_at(
                        s@,
                        j1 as int,
                        j1 + atext.len(),
                        trade_entry_shape(),
                        trade_items(mv.data),
                    ));
                }
            }
        }
        return Err(ParseError::Malformed(CategoryTag::Trade));
    }
    let ap = ares.unwrap();
    let items = ap.0;
    let j2 = ap.1;
    let l2 = expect_lit(s, j2, "}");
    let bad_tail = match l2 {
        Some(j3) => j3 != n,
        None => true,
    };
    if bad_tail {
        proof {
            assert forall|mv: TradeMessageV| !trade_at(s@, mv) by {
                if trade_at(s@, mv) {
                    let atext = arr_text(trade_entry_shape(), trade_items(mv.data));
                    lemma_split_two(s@, 0, s@.len() as int, "{\"table\":\"trade\",\"action\":\"insert\",\"data\":"@, atext + "}"@);
                    lemma_split_two(s@, j1 as int, s@.len() as int, atext, "}"@);
                    assert(arr_at(
                        s@,
                        j1 as int,
                        j1 + atext.len(),
                        trade_entry_shape(),
                        trade_items(mv.data),
                    ));
                    assert(j1 + atext.len() == j2);
                    assert(s@.subrange(j2 as int, s@.len() as int) == "}"@);
                    assert(s@.len() == j2 + 1);
                }
            }
        }
        return Err(ParseError::Malformed(CategoryTag::Trade));
    }
    let data = trade_entries_from(&items);
    let m = TradeMessage {
        table: String::from_str("trade"),
        action: String::from_str("insert"),
        data,
    };
    proof {
        let mdv = m.deep_view();
        assert(trade_items(mdv.data) == items.deep_view());
        assert(wf_trade(mdv)) by {
            assert forall|k: int| 0 <= k < trade_items(mdv.data).len() implies aligned(
                trade_entry_shape(),
                #[trigger] trade_items(mdv.data)[k],
            ) by {
                assert(trade_items(mdv.data)[k] == items.deep_view()[k]);
            }
        }
        lemma_glue_two(s@, 0, j1 as int, s@.len() as int);
        lemma_glue_two(s@, j1 as int, j2 as int, s@.len() as int);
        assert(s@.subrange(0, j1 as int) == "{\"table\":\"trade\",\"action\":\"insert\",\"data\":"@);
        assert(s@.subrange(j1 as int, j2 as int) == arr_text(
            trade_entry_shape(),
            items.deep_view(),
        ));
        assert(s@.subrange(j2 as int, s@.len() as int) == "}"@);
        assert(s@ == ser_trade(mdv));
        assert(trade_at(s@, mdv));
        assert forall|mv: TradeMessageV| trade_at(s@, mv) implies mdv == mv by {
            let atext = arr_text(trade_entry_shape(), trade_items(mv.data));
            lemma_split_two(s@, 0, s@.len() as int, "{\"table\":\"trade\",\"action\":\"insert\",\"data\":"@, atext + "}"@);
            lemma_split_two(s@, j1 as int, s@.len() as int, atext, "}"@);
            assert(arr_at(
                s@,
                j1 as int,
                j1 + atext.len(),
                trade_entry_shape(),
                trade_items(mv.data),
            ));
            assert(trade_items(mv.data) == items.deep_view());
            assert forall|k: int| 0 <= k < mv.data.len() implies mv.data[k] == mdv.data[k] by {
                assert(trade_items(mv.data)[k] == trade_entry_vals(mv.data[k]));
                assert(trade_items(mdv.data)[k] == trade_entry_vals(mdv.data[k]));
                let a = trade_entry_vals(mv.data[k]);
                let b = trade_entry_vals(mdv.data[k]);
                assert(a[0] == FieldValV::S(mv.data[k].timestamp));
                assert(a[1] == FieldValV::S(mv.data[k].symbol));
                assert(a[2] == FieldValV::S(mv.data[k].side));
                assert(a[3] == FieldValV::D(mv.data[k].size));
                assert(a[4] == FieldValV::D(mv.data[k].price));
                assert(a[5] == FieldValV::S(mv.data[k].tick_direction));
                assert(a[6] == FieldValV::S(mv.data[k].trd_match_id));
                assert(a[7] == FieldValV::D(mv.data[k].gross_value));
                assert(a[8] == FieldValV::D(mv.data[k].home_notional));
                assert(a[9] == FieldValV::D(mv.data[k].foreign_notional));
            }
            assert(mv.data =~= mdv.data);
        }
    }
    Ok(m)
}


fn subscribe_shape_vec() -> (v: Vec<ShapeTok>)
    ensures
        v@ == subscribe_shape(),
        shape_ok(v@),
{
    let mut v: Vec<ShapeTok> = Vec::new();
    v.push(ShapeTok::LitTok("{\"success\":"));
    v.push(ShapeTok::TruthTok);
    v.push(ShapeTok::LitTok(",\"subscribe\":"));
    v.push(ShapeTok::TextTok);
    v.push(ShapeTok::LitTok(",\"request\":{\"op\":"));
    v.push(ShapeTok::TextTok);
    v.push(ShapeTok::LitTok(",\"args\":"));
    proof {
        assert(v@ =~= subscribe_shape());
        assert(shape_ok(v@)) by {
            assert forall|k: int|
                0 <= k < v@.len() && ((#[trigger] v@[k]) is NumTok || v@[k] is QuantTok) implies k
                + 1 < v@.len() && crate::pieces::delim_ok(v@[k + 1]) by {
                assert(v@[k] is LitTok || v@[k] is TextTok || v@[k] is TruthTok);
            }
        }
    }
    v
}

proof fn lemma_subscribe_fields(vals: Seq<FieldValV>)
    requires
        aligned(subscribe_shape(), vals),
    ensures
        vals.len() == 3,
        vals[0] is B,
        vals[1] is S,
        vals[2] is S,
{
    reveal_with_fuel(aligned, 9);
}

fn snap_mid_shape_vec() -> (v: Vec<ShapeTok>)
    ensures
        v@ == snap_mid_shape(),
        shape_ok(v@),
{
    let mut v: Vec<ShapeTok> = Vec::new();
    v.push(ShapeTok::LitTok(",\"types\":{\"symbol\":"));
    v.push(ShapeTok::TextTok);
    v.push(ShapeTok::LitTok(",\"id\":"));
    v.push(ShapeTok::TextTok);
    v.push(ShapeTok::LitTok(",\"side\":"));
    v.push(ShapeTok::TextTok);
    v.push(ShapeTok::LitTok(",\"size\":"));
    v.push(ShapeTok::TextTok);
    v.push(ShapeTok::LitTok(",\"price\":"));
    v.push(ShapeTok::TextTok);
    v.push(ShapeTok::LitTok("},\"foreignKeys\":{\"symbol\":"));
    v.push(ShapeTok::TextTok);
    v.push(ShapeTok::LitTok(",\"side\":"));
    v.push(ShapeTok::TextTok);
    v.push(ShapeTok::LitTok("},\"attributes\":{\"symbol\":"));
    v.push(ShapeTok::TextTok);
    v.push(ShapeTok::LitTok(",\"id\":"));
    v.push(ShapeTok::TextTok);
    v.push(ShapeTok::LitTok("},\"filter\":{\"symbol\":"));
    v.push(ShapeTok::TextTok);
    v.push(ShapeTok::LitTok("},\"data\":"));
    proof {
        assert(v@ =~= snap_mid_shape());
        assert(shape_ok(v@)) by {
            assert forall|k: int|
                0 <= k < v@.len() && ((#[trigger] v@[k]) is NumTok || v@[k] is QuantTok) implies k
                + 1 < v@.len() && crate::pieces::delim_ok(v@[k + 1]) by {
                assert(v@[k] is LitTok || v@[k] is TextTok);
            }
        }
    }
    v
}

#[verifier::rlimit(100)]
proof fn lemma_snap_mid_fields(vals: Seq<FieldValV>)
    requires
        aligned(snap_mid_shape(), vals),
    ensures
        vals.len() == 10,
        vals[0] is S,
        vals[1] is S,
        vals[2] is S,
        vals[3] is S,
        vals[4] is S,
        vals[5] is S,
        vals[6] is S,
        vals[7] is S,
        vals[8] is S,
        vals[9] is S,
{
    reveal_with_fuel(aligned, 23);
}

fn tsnap_mid_shape_vec() -> (v: Vec<ShapeTok>)
    ensures
        v@ == tsnap_mid_shape(),
        shape_ok(v@),
{
    let mut v: Vec<ShapeTok> = Vec::new();
    v.push(ShapeTok::LitTok(",\"types\":{\"timestamp\":"));
    v.push(ShapeTok::TextTok);
    v.push(ShapeTok::LitTok(",\"symbol\":"));
    v.push(ShapeTok::TextTok);
    v.push(ShapeTok::LitTok(",\"side\":"));
    v.push(ShapeTok::TextTok);
    v.push(ShapeTok::LitTok(",\"size\":"));
    v.push(ShapeTok::TextTok);
    v.push(ShapeTok::LitTok(",\"price\":"));
    v.push(ShapeTok::TextTok);
    v.push(ShapeTok::LitTok(",\"tickDirection\":"));
    v.push(ShapeTok::TextTok);
    v.push(ShapeTok::LitTok(",\"trdMatchID\":"));
    v.push(ShapeTok::TextTok);
    v.push(ShapeTok::LitTok(",\"grossValue\":"));
    v.push(ShapeTok::TextTok);
    v.push(ShapeTok::LitTok(",\"homeNotional\":"));
    v.push(ShapeTok::TextTok);
    v.push(ShapeTok::LitTok(",\"foreignNotional\":"));
    v.push(ShapeTok::TextTok);
    v.push(ShapeTok::LitTok("},\"foreignKeys\":{\"symbol\":"));
    v.push(ShapeTok::TextTok);
    v.push(ShapeTok::LitTok(",\"side\":"));
    v.push(ShapeTok::TextTok);
    v.push(ShapeTok::LitTok("},\"attributes\":{\"timestamp\":"));
    v.push(ShapeTok::TextTok);
    v.push(ShapeTok::LitTok(",\"symbol\":"));
    v.push(ShapeTok::TextTok);
    v.push(ShapeTok::LitTok("},\"filter\":{\"symbol\":"));
    v.push(ShapeTok::TextTok);
    v.push(ShapeTok::LitTok("},\"data\":"));
    proof {
        assert(v@ =~= tsnap_mid_shape());
        assert(shape_ok(v@)) by {
            assert forall|k: int|
                0 <= k < v@.len() && ((#[trigger] v@[k]) is NumTok || v@[k] is QuantTok) implies k
                + 1 < v@.len() && crate::pieces::delim_ok(v@[k + 1]) by {
                assert(v@[k] is LitTok || v@[k] is TextTok);
            }
        }
    }
    v
}

#[verifier::rlimit(100)]
proof fn lemma_tsnap_mid_fields(vals: Seq<FieldValV>)
    requires
        aligned(tsnap_mid_shape(), vals),
    ensures
        vals.len() == 15,
        vals[0] is S,
        vals[1] is S,
        vals[2] is S,
        vals[3] is S,
        vals[4] is S,
        vals[5] is S,
        vals[6] is S,
        vals[7] is S,
        vals[8] is S,
        vals[9] is S,
        vals[10] is S,
        vals[11] is S,
        vals[12] is S,
        vals[13] is S,
        vals[14] is S,
{
    reveal_with_fuel(aligned, 33);
}


/// Decode a subscription acknowledgement. Exact in both directions.
pub fn decode_subscribe(s: &str) -> (r: Result<SubscribeMessage, ParseError>)
    ensures
        r matches Ok(m) ==> subscribe_at(s@, m.deep_view()),
        forall|mv: SubscribeMessageV| subscribe_at(s@, mv) ==> (r matches Ok(m) && m.deep_view()
            == mv),
        r is Err ==> r == Err::<SubscribeMessage, ParseError>(
            ParseError::Malformed(CategoryTag::Subscribe),
        ),
{
    let n = s.unicode_len();
    proof {
        assert(s@.subrange(0, s@.len() as int) =~= s@);
        reveal_strlit("}}");
    }
    let shv = subscribe_shape_vec();
    let res = walk(s, 0, &shv);
    if res.is_none() {
        proof {
            assert forall|mv: SubscribeMessageV| !subscribe_at(s@, mv) by {
                if subscribe_at(s@, mv) {
                    let sg = ser_seg(subscribe_shape(), subscribe_vals(mv));
                    lemma_split_two(
                        s@,
                        0,
                        s@.len() as int,
                        sg,
                        arr_text(text_item_shape(), text_items(mv.request.args)) + "}}"@,
                    );
                    assert(seg_at(s@, 0, sg.len() as int, subscribe_shape(), subscribe_vals(mv)));
                }
            }
        }
        return Err(ParseError::Malformed(CategoryTag::Subscribe));
    }
    let p = res.unwrap();
    let vals = p.0;
    let j1 = p.1;
    let tshv = text_item_shape_vec();
    let ares = parse_arr(s, j1, &tshv);
    if ares.is_none() {
        proof {
            assert forall|mv: SubscribeMessageV| !subscribe_at(s@, mv) by {
                if subscribe_at(s@, mv) {
                    let sg = ser_seg(subscribe_shape(), subscribe_vals(mv));
                    let ka = arr_text(text_item_shape(), text_items(mv.request.args));
                    lemma_split_two(s@, 0, s@.len() as int, sg, ka + "}}"@);
                    assert(seg_at(s@, 0, sg.len() as int, subscribe_shape(), subscribe_vals(mv)));
                    lemma_split_two(s@, sg.len() as int, s@.len() as int, ka, "}}"@);
                    assert(arr_at(
                        s@,
                        j1 as int,
                        j1 + ka.len(),
                        text_item_shape(),
                        text_items(mv.request.args),
                    ));
                }
            }
        }
        return Err(ParseError::Malformed(CategoryTag::Subscribe));
    }
    let ap = ares.unwrap();
    let items = ap.0;
    let j2 = ap.1;
    let l2 = expect_lit(s, j2, "}}");
    let bad_tail = match l2 {
        Some(j3) => j3 != n,
        None => true,
    };
    if bad_tail {
        proof {
            assert forall|mv: SubscribeMessageV| !subscribe_at(s@, mv) by {
                if subscribe_at(s@, mv) {
                    let sg = ser_seg(subscribe_shape(), subscribe_vals(mv));
                    let ka = arr_text(text_item_shape(), text_items(mv.request.args));
                    lemma_split_two(s@, 0, s@.len() as int, sg, ka + "}}"@);
                    assert(seg_at(s@, 0, sg.len() as int, subscribe_shape(), subscribe_vals(mv)));
                    lemma_split_two(s@, sg.len() as int, s@.len() as int, ka, "}}"@);
                    assert(arr_at(
                        s@,
                        j1 as int,
                        j1 + ka.len(),
                        text_item_shape(),
                        text_items(mv.request.args),
                    ));
                    assert(j1 + ka.len() == j2);
                    assert(s@.subrange(j2 as int, s@.len() as int) == "}}"@);
                    assert(s@.len() == j2 + 2);
                }
            }
        }
        return Err(ParseError::Malformed(CategoryTag::Subscribe));
    }
    proof {
        lemma_subscribe_fields(vals.deep_view());
    }
    let m = SubscribeMessage {
        success: take_truth(&vals, 0),
        subscribe: take_text(&vals, 1),
        request: Request { op: take_text(&vals, 2), args: texts_from(&items) },
    };
    proof {
        let mdv = m.deep_view();
        assert(subscribe_vals(mdv) =~= vals.deep_view());
        assert(text_items(mdv.request.args) == items.deep_view());
        assert(wf_subscribe(mdv)) by {
            assert forall|k: int| 0 <= k < text_items(mdv.request.args).len() implies aligned(
                text_item_shape(),
                #[trigger] text_items(mdv.request.args)[k],
            ) by {
                assert(text_items(mdv.request.args)[k] == items.deep_view()[k]);
            }
        }
        lemma_glue_two(s@, 0, j1 as int, s@.len() as int);
        lemma_glue_two(s@, j1 as int, j2 as int, s@.len() as int);
        assert(s@.subrange(j2 as int, s@.len() as int) == "}}"@);
        assert(s@ == ser_subscribe(mdv));
        assert(subscribe_at(s@, mdv));
        assert forall|mv: SubscribeMessageV| subscribe_at(s@, mv) implies mdv == mv by {
            let sg = ser_seg(subscribe_shape(), subscribe_vals(mv));
            let ka = arr_text(text_item_shape(), text_items(mv.request.args));
            lemma_split_two(s@, 0, s@.len() as int, sg, ka + "}}"@);
            assert(seg_at(s@, 0, sg.len() as int, subscribe_shape(), subscribe_vals(mv)));
            assert(subscribe_vals(mv) == vals.deep_view());
            assert(subscribe_vals(mv)[0] == FieldValV::B(mv.success));
            assert(subscribe_vals(mv)[1] == FieldValV::S(mv.subscribe));
            assert(subscribe_vals(mv)[2] == FieldValV::S(mv.request.op));
            lemma_split_two(s@, sg.len() as int, s@.len() as int, ka, "}}"@);
            assert(arr_at(
                s@,
                j1 as int,
                j1 + ka.len(),
                text_item_shape(),
                text_items(mv.request.args),
            ));
            assert(text_items(mv.request.args) == items.deep_view());
            assert forall|k: int| 0 <= k < mv.request.args.len() implies mv.request.args[k]
                == mdv.request.args[k] by {
                assert(text_items(mv.request.args)[k] == seq![FieldValV::S(mv.request.args[k])]);
                assert(text_items(mdv.request.args)[k] == seq![
                    FieldValV::S(mdv.request.args[k]),
                ]);
                assert(seq![FieldValV::S(mv.request.args[k])][0] == seq![
                    FieldValV::S(mdv.request.args[k]),
                ][0]);
            }
            assert(mv.request.args =~= mdv.request.args);
        }
    }
    Ok(m)
}

/// The positions of a snapshot payload's parts, read off its definition.
proof fn lemma_snapshot_splits(s: Seq<char>, mv: SnapshotMessageV)
    requires
        snapshot_at(s, mv),
    ensures
        ({
            let l1 = "{\"table\":\"orderBookL2\",\"action\":\"partial\",\"keys\":"@.len() as int;
            let ka = arr_text(text_item_shape(), text_items(mv.keys));
            let mid = ser_seg(snap_mid_shape(), snap_mid_vals(mv));
            let da = arr_text(ins_entry_shape(), ins_items(mv.data));
            &&& s.len() == l1 + ka.len() + mid.len() + da.len() + 1
            &&& s.subrange(0, l1 as int) == "{\"table\":\"orderBookL2\",\"action\":\"partial\",\"keys\":"@
            &&& arr_at(s, l1 as int, l1 + ka.len(), text_item_shape(), text_items(mv.keys))
            &&& seg_at(
                s,
                l1 + ka.len(),
                l1 + ka.len() + mid.len(),
                snap_mid_shape(),
                snap_mid_vals(mv),
            )
            &&& arr_at(
                s,
                l1 + ka.len() + mid.len(),
                l1 + ka.len() + mid.len() + da.len(),
                ins_entry_shape(),
                ins_items(mv.data),
            )
            &&& s.subrange(s.len() - 1, s.len() as int) == "}"@
        }),
{
    reveal_strlit("}");
    assert(s.subrange(0, s.len() as int) =~= s);
    let l1 = "{\"table\":\"orderBookL2\",\"action\":\"partial\",\"keys\":"@.len() as int;
    let ka = arr_text(text_item_shape(), text_items(mv.keys));
    let mid = ser_seg(snap_mid_shape(), snap_mid_vals(mv));
    let da = arr_text(ins_entry_shape(), ins_items(mv.data));
    lemma_split_two(s, 0, s.len() as int, "{\"table\":\"orderBookL2\",\"action\":\"partial\",\"keys\":"@, ka + (mid + (da + "}"@)));
    lemma_split_two(s, l1 as int, s.len() as int, ka, mid + (da + "}"@));
    lemma_split_two(s, l1 + ka.len(), s.len() as int, mid, da + "}"@);
    lemma_split_two(s, l1 + ka.len() + mid.len(), s.len() as int, da, "}"@);
}

/// Decode one snapshot message. Exact in both directions.
pub fn decode_snapshot(s: &str) -> (r: Result<SnapshotMessage, ParseError>)
    ensures
        r matches Ok(m) ==> snapshot_at(s@, m.deep_view()),
        forall|mv: SnapshotMessageV| snapshot_at(s@, mv) ==> (r matches Ok(m) && m.deep_view() == mv),
        r is Err ==> r == Err::<SnapshotMessage, ParseError>(ParseError::Malformed(CategoryTag::Snapshot)),
{
    let n = s.unicode_len();
    proof {
        assert(s@.subrange(0, s@.len() as int) =~= s@);
        reveal_strlit("}");
    }
    let l1 = expect_lit(s, 0, "{\"table\":\"orderBookL2\",\"action\":\"partial\",\"keys\":");
    if l1.is_none() {
        proof {
            assert forall|mv: SnapshotMessageV| !snapshot_at(s@, mv) by {
                if snapshot_at(s@, mv) {
                    lemma_snapshot_splits(s@, mv);
                }
            }
        }
        return Err(ParseError::Malformed(CategoryTag::Snapshot));
    }
    let j1 = l1.unwrap();
    let tshv = text_item_shape_vec();
    let kres = parse_arr(s, j1, &tshv);
    if kres.is_none() {
        proof {
            assert forall|mv: SnapshotMessageV| !snapshot_at(s@, mv) by {
                if snapshot_at(s@, mv) {
                    lemma_snapshot_splits(s@, mv);
                }
            }
        }
        return Err(ParseError::Malformed(CategoryTag::Snapshot));
    }
    let kp = kres.unwrap();
    let kitems = kp.0;
    let j2 = kp.1;
    let mshv = snap_mid_shape_vec();
    let mres = walk(s, j2, &mshv);
    if mres.is_none() {
        proof {
            assert forall|mv: SnapshotMessageV| !snapshot_at(s@, mv) by {
                if snapshot_at(s@, mv) {
                    lemma_snapshot_splits(s@, mv);
                    let ka = arr_text(text_item_shape(), text_items(mv.keys));
                    assert(j1 + ka.len() == j2);
                }
            }
        }
        return Err(ParseError::Malformed(CategoryTag::Snapshot));
    }
    let mp = mres.unwrap();
    let vals = mp.0;
    let j3 = mp.1;
    let eshv = ins_shape_vec();
    let dres = parse_arr(s, j3, &eshv);
    if dres.is_none() {
        proof {
            assert forall|mv: SnapshotMessageV| !snapshot_at(s@, mv) by {
                if snapshot_at(s@, mv) {
                    lemma_snapshot_splits(s@, mv);
                    let ka = arr_text(text_item_shape(), text_items(mv.keys));
                    let mid = ser_seg(snap_mid_shape(), snap_mid_vals(mv));
                    assert(j1 + ka.len() == j2);
                    assert(j2 + mid.len() == j3);
                }
            }
        }
        return Err(ParseError::Malformed(CategoryTag::Snapshot));
    }
    let dp = dres.unwrap();
    let ditems = dp.0;
    let j4 = dp.1;
    let l2 = expect_lit(s, j4, "}");
    let bad_tail = match l2 {
        Some(j5) => j5 != n,
        None => true,
    };
    if bad_tail {
        proof {
            assert forall|mv: SnapshotMessageV| !snapshot_at(s@, mv) by {
                if snapshot_at(s@, mv) {
                    lemma_snapshot_splits(s@, mv);
                    let ka = arr_text(text_item_shape(), text_items(mv.keys));
                    let mid = ser_seg(snap_mid_shape(), snap_mid_vals(mv));
                    let da = arr_text(ins_entry_shape(), ins_items(mv.data));
                    assert(j1 + ka.len() == j2);
                    assert(j2 + mid.len() == j3);
                    assert(j3 + da.len() == j4);
                    assert(s@.len() == j4 + 1);
                    assert(s@.subrange(j4 as int, j4 + 1) == "}"@);
                }
            }
        }
        return Err(ParseError::Malformed(CategoryTag::Snapshot));
    }
    proof {
        lemma_snap_mid_fields(vals.deep_view());
    }
    let m = SnapshotMessage {
        table: String::from_str("orderBookL2"),
        action: String::from_str("partial"),
        keys: texts_from(&kitems),
        types: Types { symbol: take_text(&vals, 0), id: take_text(&vals, 1), side: take_text(&vals, 2), size: take_text(&vals, 3), price: take_text(&vals, 4) },
        foreign_keys: ForeignKeys { symbol: take_text(&vals, 5), side: take_text(&vals, 6) },
        attributes: Attributes { symbol: take_text(&vals, 7), id: take_text(&vals, 8) },
        filter: Filter { symbol: take_text(&vals, 9) },
        data: ins_entries_from(&ditems),
    };
    proof {
        let mdv = m.deep_view();
        assert(snap_mid_vals(mdv) =~= vals.deep_view());
        assert(text_items(mdv.keys) == kitems.deep_view());
        assert(ins_items(mdv.data) == ditems.deep_view());
        assert(wf_snapshot(mdv)) by {
            assert forall|k: int| 0 <= k < text_items(mdv.keys).len() implies aligned(
                text_item_shape(),
                #[trigger] text_items(mdv.keys)[k],
            ) by {
                assert(text_items(mdv.keys)[k] == kitems.deep_view()[k]);
            }
            assert forall|k: int| 0 <= k < ins_items(mdv.data).len() implies aligned(
                ins_entry_shape(),
                #[trigger] ins_items(mdv.data)[k],
            ) by {
                assert(ins_items(mdv.data)[k] == ditems.deep_view()[k]);
            }
        }
        lemma_glue_two(s@, 0, j1 as int, s@.len() as int);
        lemma_glue_two(s@, j1 as int, j2 as int, s@.len() as int);
        lemma_glue_two(s@, j2 as int, j3 as int, s@.len() as int);
        lemma_glue_two(s@, j3 as int, j4 as int, s@.len() as int);
        assert(s@.subrange(j4 as int, s@.len() as int) == "}"@);
        assert(s@ == ser_snapshot(mdv));
        assert(snapshot_at(s@, mdv));
        assert forall|mv: SnapshotMessageV| snapshot_at(s@, mv) implies mdv == mv by {
            lemma_snapshot_splits(s@, mv);
            let ka = arr_text(text_item_shape(), text_items(mv.keys));
            let mid = ser_seg(snap_mid_shape(), snap_mid_vals(mv));
            assert(text_items(mv.keys) == kitems.deep_view());
            assert(j1 + ka.len() == j2);
            assert(snap_mid_vals(mv) == vals.deep_view());
            assert(j2 + mid.len() == j3);
            assert(ins_items(mv.data) == ditems.deep_view());
            assert(snap_mid_vals(mv)[0] == FieldValV::S(mv.types.symbol));
            assert(snap_mid_vals(mv)[1] == FieldValV::S(mv.types.id));
            assert(snap_mid_vals(mv)[2] == FieldValV::S(mv.types.side));
            assert(snap_mid_vals(mv)[3] == FieldValV::S(mv.types.size));
            assert(snap_mid_vals(mv)[4] == FieldValV::S(mv.types.price));
            assert(snap_mid_vals(mv)[5] == FieldValV::S(mv.foreign_keys.symbol));
            assert(snap_mid_vals(mv)[6] == FieldValV::S(mv.foreign_keys.side));
            assert(snap_mid_vals(mv)[7] == FieldValV::S(mv.attributes.symbol));
            assert(snap_mid_vals(mv)[8] == FieldValV::S(mv.attributes.id));
            assert(snap_mid_vals(mv)[9] == FieldValV::S(mv.filter.symbol));
            assert forall|k: int| 0 <= k < mv.keys.len() implies mv.keys[k] == mdv.keys[k] by {
                assert(text_items(mv.keys)[k] == seq![FieldValV::S(mv.keys[k])]);
                assert(text_items(mdv.keys)[k] == seq![FieldValV::S(mdv.keys[k])]);
                assert(seq![FieldValV::S(mv.keys[k])][0] == seq![FieldValV::S(mdv.keys[k])][0]);
            }
            assert(mv.keys =~= mdv.keys);
            assert forall|k: int| 0 <= k < mv.data.len() implies mv.data[k] == mdv.data[k] by {
                assert(ins_items(mv.data)[k] == ins_entry_vals(mv.data[k]));
                assert(ins_items(mdv.data)[k] == ins_entry_vals(mdv.data[k]));
                let a = ins_entry_vals(mv.data[k]);
                let b = ins_entry_vals(mdv.data[k]);
                assert(a[0] == FieldValV::S(mv.data[k].symbol));
                assert(a[1] == FieldValV::N(mv.data[k].id));
                assert(a[2] == FieldValV::S(mv.data[k].side));
                assert(a[3] == FieldValV::N(mv.data[k].size));
                assert(a[4] == FieldValV::D(mv.data[k].price));
            }
            assert(mv.data =~= mdv.data);
        }
    }
    Ok(m)
}

/// The positions of a tsnapshot payload's parts, read off its definition.
proof fn lemma_tsnapshot_splits(s: Seq<char>, mv: TradeSnapshotMessageV)
    requires
        tsnapshot_at(s, mv),
    ensures
        ({
            let l1 = "{\"table\":\"trade\",\"action\":\"partial\",\"keys\":"@.len() as int;
            let ka = arr_text(text_item_shape(), text_items(mv.keys));
            let mid = ser_seg(tsnap_mid_shape(), tsnap_mid_vals(mv));
            let da = arr_text(trade_entry_shape(), trade_items(mv.data));
            &&& s.len() == l1 + ka.len() + mid.len() + da.len() + 1
            &&& s.subrange(0, l1 as int) == "{\"table\":\"trade\",\"action\":\"partial\",\"keys\":"@
            &&& arr_at(s, l1 as int, l1 + ka.len(), text_item_shape(), text_items(mv.keys))
            &&& seg_at(
                s,
                l1 + ka.len(),
                l1 + ka.len() + mid.len(),
                tsnap_mid_shape(),
                tsnap_mid_vals(mv),
            )
            &&& arr_at(
                s,
                l1 + ka.len() + mid.len(),
                l1 + ka.len() + mid.len() + da.len(),
                trade_entry_shape(),
                trade_items(mv.data),
            )
            &&& s.subrange(s.len() - 1, s.len() as int) == "}"@
        }),
{
    reveal_strlit("}");
    assert(s.subrange(0, s.len() as int) =~= s);
    let l1 = "{\"table\":\"trade\",\"action\":\"partial\",\"keys\":"@.len() as int;
    let ka = arr_text(text_item_shape(), text_items(mv.keys));
    let mid = ser_seg(tsnap_mid_shape(), tsnap_mid_vals(mv));
    let da = arr_text(trade_entry_shape(), trade_items(mv.data));
    lemma_split_two(s, 0, s.len() as int, "{\"table\":\"trade\",\"action\":\"partial\",\"keys\":"@, ka + (mid + (da + "}"@)));
    lemma_split_two(s, l1 as int, s.len() as int, ka, mid + (da + "}"@));
    lemma_split_two(s, l1 + ka.len(), s.len() as int, mid, da + "}"@);
    lemma_split_two(s, l1 + ka.len() + mid.len(), s.len() as int, da, "}"@);
}

/// Decode one tsnapshot message. Exact in both directions.
pub fn decode_tsnapshot(s: &str) -> (r: Result<TradeSnapshotMessage, ParseError>)
    ensures
        r matches Ok(m) ==> tsnapshot_at(s@, m.deep_view()),
        forall|mv: TradeSnapshotMessageV| tsnapshot_at(s@, mv) ==> (r matches Ok(m) && m.deep_view() == mv),
        r is Err ==> r == Err::<TradeSnapshotMessage, ParseError>(ParseError::Malformed(CategoryTag::TradeSnapshot)),
{
    let n = s.unicode_len();
    proof {
        assert(s@.subrange(0, s@.len() as int) =~= s@);
        reveal_strlit("}");
    }
    let l1 = expect_lit(s, 0, "{\"table\":\"trade\",\"action\":\"partial\",\"keys\":");
    if l1.is_none() {
        proof {
            assert forall|mv: TradeSnapshotMessageV| !tsnapshot_at(s@, mv) by {
                if tsnapshot_at(s@, mv) {
                    lemma_tsnapshot_splits(s@, mv);
                }
            }
        }
        return Err(ParseError::Malformed(CategoryTag::TradeSnapshot));
    }
    let j1 = l1.unwrap();
    let tshv = text_item_shape_vec();
    let kres = parse_arr(s, j1, &tshv);
    if kres.is_none() {
        proof {
            assert forall|mv: TradeSnapshotMessageV| !tsnapshot_at(s@, mv) by {
                if tsnapshot_at(s@, mv) {
                    lemma_tsnapshot_splits(s@, mv);
                }
            }
        }
        return Err(ParseError::Malformed(CategoryTag::TradeSnapshot));
    }
    let kp = kres.unwrap();
    let kitems = kp.0;
    let j2 = kp.1;
    let mshv = tsnap_mid_shape_vec();
    let mres = walk(s, j2, &mshv);
    if mres.is_none() {
        proof {
            assert forall|mv: TradeSnapshotMessageV| !tsnapshot_at(s@, mv) by {
                if tsnapshot_at(s@, mv) {
                    lemma_tsnapshot_splits(s@, mv);
                    let ka = arr_text(text_item_shape(), text_items(mv.keys));
                    assert(j1 + ka.len() == j2);
                }
            }
        }
        return Err(ParseError::Malformed(CategoryTag::TradeSnapshot));
    }
    let mp = mres.unwrap();
    let vals = mp.0;
    let j3 = mp.1;
    let eshv = trade_shape_vec();
    let dres = parse_arr(s, j3, &eshv);
    if dres.is_none() {
        proof {
            assert forall|mv: TradeSnapshotMessageV| !tsnapshot_at(s@, mv) by {
                if tsnapshot_at(s@, mv) {
                    lemma_tsnapshot_splits(s@, mv);
                    let ka = arr_text(text_item_shape(), text_items(mv.keys));
                    let mid = ser_seg(tsnap_mid_shape(), tsnap_mid_vals(mv));
                    assert(j1 + ka.len() == j2);
                    assert(j2 + mid.len() == j3);
                }
            }
        }
        return Err(ParseError::Malformed(CategoryTag::TradeSnapshot));
    }
    let dp = dres.unwrap();
    let ditems = dp.0;
    let j4 = dp.1;
    let l2 = expect_lit(s, j4, "}");
    let bad_tail = match l2 {
        Some(j5) => j5 != n,
        None => true,
    };
    if bad_tail {
        proof {
            assert forall|mv: TradeSnapshotMessageV| !tsnapshot_at(s@, mv) by {
                if tsnapshot_at(s@, mv) {
                    lemma_tsnapshot_splits(s@, mv);
                    let ka = arr_text(text_item_shape(), text_items(mv.keys));
                    let mid = ser_seg(tsnap_mid_shape(), tsnap_mid_vals(mv));
                    let da = arr_text(trade_entry_shape(), trade_items(mv.data));
                    assert(j1 + ka.len() == j2);
                    assert(j2 + mid.len() == j3);
                    assert(j3 + da.len() == j4);
                    assert(s@.len() == j4 + 1);
                    assert(s@.subrange(j4 as int, j4 + 1) == "}"@);
                }
            }
        }
        return Err(ParseError::Malformed(CategoryTag::TradeSnapshot));
    }
    proof {
        lemma_tsnap_mid_fields(vals.deep_view());
    }
    let m = TradeSnapshotMessage {
        table: String::from_str("trade"),
        action: String::from_str("partial"),
        keys: texts_from(&kitems),
        types: TradeTypes { timestamp: take_text(&vals, 0), symbol: take_text(&vals, 1), side: take_text(&vals, 2), size: take_text(&vals, 3), price: take_text(&vals, 4), tick_direction: take_text(&vals, 5), trd_match_id: take_text(&vals, 6), gross_value: take_text(&vals, 7), home_notional: take_text(&vals, 8), foreign_notional: take_text(&vals, 9) },
        foreign_keys: ForeignKeys { symbol: take_text(&vals, 10), side: take_text(&vals, 11) },
        attributes: TradeAttributes { timestamp: take_text(&vals, 12), symbol: take_text(&vals, 13) },
        filter: Filter { symbol: take_text(&vals, 14) },
        data: trade_entries_from(&ditems),
    };
    proof {
        let mdv = m.deep_view();
        assert(tsnap_mid_vals(mdv) =~= vals.deep_view());
        assert(text_items(mdv.keys) == kitems.deep_view());
        assert(trade_items(mdv.data) == ditems.deep_view());
        assert(wf_tsnapshot(mdv)) by {
            assert forall|k: int| 0 <= k < text_items(mdv.keys).len() implies aligned(
                text_item_shape(),
                #[trigger] text_items(mdv.keys)[k],
            ) by {
                assert(text_items(mdv.keys)[k] == kitems.deep_view()[k]);
            }
            assert forall|k: int| 0 <= k < trade_items(mdv.data).len() implies aligned(
                trade_entry_shape(),
                #[trigger] trade_items(mdv.data)[k],
            ) by {
                assert(trade_items(mdv.data)[k] == ditems.deep_view()[k]);
            }
        }
        lemma_glue_two(s@, 0, j1 as int, s@.len() as int);
        lemma_glue_two(s@, j1 as int, j2 as int, s@.len() as int);
        lemma_glue_two(s@, j2 as int, j3 as int, s@.len() as int);
        lemma_glue_two(s@, j3 as int, j4 as int, s@.len() as int);
        assert(s@.subrange(j4 as int, s@.len() as int) == "}"@);
        assert(s@ == ser_tsnapshot(mdv));
        assert(tsnapshot_at(s@, mdv));
        assert forall|mv: TradeSnapshotMessageV| tsnapshot_at(s@, mv) implies mdv == mv by {
            lemma_tsnapshot_splits(s@, mv);
            let ka = arr_text(text_item_shape(), text_items(mv.keys));
            let mid = ser_seg(tsnap_mid_shape(), tsnap_mid_vals(mv));
            assert(text_items(mv.keys) == kitems.deep_view());
            assert(j1 + ka.len() == j2);
            assert(tsnap_mid_vals(mv) == vals.deep_view());
            assert(j2 + mid.len() == j3);
            assert(trade_items(mv.data) == ditems.deep_view());
            assert(tsnap_mid_vals(mv)[0] == FieldValV::S(mv.types.timestamp));
            assert(tsnap_mid_vals(mv)[1] == FieldValV::S(mv.types.symbol));
            assert(tsnap_mid_vals(mv)[2] == FieldValV::S(mv.types.side));
            assert(tsnap_mid_vals(mv)[3] == FieldValV::S(mv.types.size));
            assert(tsnap_mid_vals(mv)[4] == FieldValV::S(mv.types.price));
            assert(tsnap_mid_vals(mv)[5] == FieldValV::S(mv.types.tick_direction));
            assert(tsnap_mid_vals(mv)[6] == FieldValV::S(mv.types.trd_match_id));
            assert(tsnap_mid_vals(mv)[7] == FieldValV::S(mv.types.gross_value));
            assert(tsnap_mid_vals(mv)[8] == FieldValV::S(mv.types.home_notional));
            assert(tsnap_mid_vals(mv)[9] == FieldValV::S(mv.types.foreign_notional));
            assert(tsnap_mid_vals(mv)[10] == FieldValV::S(mv.foreign_keys.symbol));
            assert(tsnap_mid_vals(mv)[11] == FieldValV::S(mv.foreign_keys.side));
            assert(tsnap_mid_vals(mv)[12] == FieldValV::S(mv.attributes.timestamp));
            assert(tsnap_mid_vals(mv)[13] == FieldValV::S(mv.attributes.symbol));
            assert(tsnap_mid_vals(mv)[14] == FieldValV::S(mv.filter.symbol));
            assert forall|k: int| 0 <= k < mv.keys.len() implies mv.keys[k] == mdv.keys[k] by {
                assert(text_items(mv.keys)[k] == seq![FieldValV::S(mv.keys[k])]);
                assert(text_items(mdv.keys)[k] == seq![FieldValV::S(mdv.keys[k])]);
                assert(seq![FieldValV::S(mv.keys[k])][0] == seq![FieldValV::S(mdv.keys[k])][0]);
            }
            assert(mv.keys =~= mdv.keys);
            assert forall|k: int| 0 <= k < mv.data.len() implies mv.data[k] == mdv.data[k] by {
                assert(trade_items(mv.data)[k] == trade_entry_vals(mv.data[k]));
                assert(trade_items(mdv.data)[k] == trade_entry_vals(mdv.data[k]));
                let a = trade_entry_vals(mv.data[k]);
                let b = trade_entry_vals(mdv.data[k]);
                assert(a[0] == FieldValV::S(mv.data[k].timestamp));
                assert(a[1] == FieldValV::S(mv.data[k].symbol));
                assert(a[2] == FieldValV::S(mv.data[k].side));
                assert(a[3] == FieldValV::D(mv.data[k].size));
                assert(a[4] == FieldValV::D(mv.data[k].price));
                assert(a[5] == FieldValV::S(mv.data[k].tick_direction));
                assert(a[6] == FieldValV::S(mv.data[k].trd_match_id));
                assert(a[7] == FieldValV::D(mv.data[k].gross_value));
                assert(a[8] == FieldValV::D(mv.data[k].home_notional));
                assert(a[9] == FieldValV::D(mv.data[k].foreign_notional));
            }
            assert(mv.data =~= mdv.data);
        }
    }
    Ok(m)
}


/// Every well-formed payload of a known category is classified as that
/// category: the peek windows always land inside the fixed leading keys.
pub proof fn lemma_classify_serialized(s: Seq<char>, mv: BitmexMessageV)
    requires
        msg_at(s, mv),
    ensures
        spec_classify(s) == Ok::<CategoryTag, ParseError>(tag_of(mv)),
{
    match mv {
            BitmexMessageV::Info(m) => {
                reveal_strlit("{\"info\":");
                let ps = mk_pieces(info_shape(), info_vals(m));
                assert(info_shape()[0] == ShapeTok::LitTok("{\"info\":"));
                assert(ps == seq![Piece::Lit("{\"info\":"@)] + mk_pieces(info_shape().drop_first(), info_vals(m)));
                assert(ps[0] == Piece::Lit("{\"info\":"@));
                assert(ps.drop_first() =~= mk_pieces(info_shape().drop_first(), info_vals(m)));
                assert(ser_pieces(ps) == "{\"info\":"@ + ser_pieces(mk_pieces(info_shape().drop_first(), info_vals(m))));
                let sg2 = ser_seg(info_shape(), info_vals(m));
                assert(sg2.subrange(0, 8) =~= "{\"info\":"@);
                assert(s == sg2);
                assert forall|k: int| 0 <= k < 8 implies s[k] == "{\"info\":"@[k] by {
                    assert(sg2.subrange(0, 8)[k] == sg2[k]);
                }
                assert(s.len() >= 8);
            },
            BitmexMessageV::Subscribe(m) => {
                let sg = ser_seg(subscribe_shape(), subscribe_vals(m));
                assert(s.subrange(0, s.len() as int) =~= s);
                lemma_split_two(s, 0, s.len() as int, sg, arr_text(text_item_shape(), text_items(m.request.args)) + "}}"@);
                reveal_strlit("{\"success\":");
                let ps = mk_pieces(subscribe_shape(), subscribe_vals(m));
                assert(subscribe_shape()[0] == ShapeTok::LitTok("{\"success\":"));
                assert(ps == seq![Piece::Lit("{\"success\":"@)] + mk_pieces(subscribe_shape().drop_first(), subscribe_vals(m)));
                assert(ps[0] == Piece::Lit("{\"success\":"@));
                assert(ps.drop_first() =~= mk_pieces(subscribe_shape().drop_first(), subscribe_vals(m)));
                assert(ser_pieces(ps) == "{\"success\":"@ + ser_pieces(mk_pieces(subscribe_shape().drop_first(), subscribe_vals(m))));
                let sg2 = ser_seg(subscribe_shape(), subscribe_vals(m));
                assert(sg2.subrange(0, 11) =~= "{\"success\":"@);
                assert(s.subrange(0, sg2.len() as int) == sg2);
                assert forall|k: int| 0 <= k < 11 implies s[k] == "{\"success\":"@[k] by {
                    assert(sg2.subrange(0, 11)[k] == sg2[k]);
                    assert(s.subrange(0, sg2.len() as int)[k] == s[k]);
                }
                assert(s.len() >= 11);
            },
            BitmexMessageV::Update(m) => {
                reveal_strlit("{\"table\":\"orderBookL2\",\"action\":\"update\",\"data\":");
                assert(s.subrange(0, s.len() as int) =~= s);
                lemma_split_two(s, 0, s.len() as int, "{\"table\":\"orderBookL2\",\"action\":\"update\",\"data\":"@, arr_text(upd_entry_shape(), upd_items(m.data)) + "}"@);
                assert(s.subrange(0, 48)[2] == s[2]);
                assert(s.subrange(0, 48)[3] == s[3]);
                assert(s.subrange(0, 48)[4] == s[4]);
                assert(s.subrange(0, 48)[10] == s[10]);
                assert(s.subrange(0, 48)[11] == s[11]);
                assert(s.subrange(0, 48)[12] == s[12]);
                assert(s.subrange(0, 48)[33] == s[33]);
                assert(s.subrange(0, 48)[34] == s[34]);
                assert(s.subrange(0, 48)[35] == s[35]);
            },
            BitmexMessageV::Delete(m) => {
                reveal_strlit("{\"table\":\"orderBookL2\",\"action\":\"delete\",\"data\":");
                assert(s.subrange(0, s.len() as int) =~= s);
                lemma_split_two(s, 0, s.len() as int, "{\"table\":\"orderBookL2\",\"action\":\"delete\",\"data\":"@, arr_text(del_entry_shape(), del_items(m.data)) + "}"@);
                assert(s.subrange(0, 48)[2] == s[2]);
                assert(s.subrange(0, 48)[3] == s[3]);
                assert(s.subrange(0, 48)[4] == s[4]);
                assert(s.subrange(0, 48)[10] == s[10]);
                assert(s.subrange(0, 48)[11] == s[11]);
                assert(s.subrange(0, 48)[12] == s[12]);
                assert(s.subrange(0, 48)[33] == s[33]);
                assert(s.subrange(0, 48)[34] == s[34]);
                assert(s.subrange(0, 48)[35] == s[35]);
            },
            BitmexMessageV::Insert(m) => {
                reveal_strlit("{\"table\":\"orderBookL2\",\"action\":\"insert\",\"data\":");
                assert(s.subrange(0, s.len() as int) =~= s);
                lemma_split_two(s, 0, s.len() as int, "{\"table\":\"orderBookL2\",\"action\":\"insert\",\"data\":"@, arr_text(ins_entry_shape(), ins_items(m.data)) + "}"@);
                assert(s.subrange(0, 48)[2] == s[2]);
                assert(s.subrange(0, 48)[3] == s[3]);
                assert(s.subrange(0, 48)[4] == s[4]);
                assert(s.subrange(0, 48)[10] == s[10]);
                assert(s.subrange(0, 48)[11] == s[11]);
                assert(s.subrange(0, 48)[12] == s[12]);
                assert(s.subrange(0, 48)[33] == s[33]);
                assert(s.subrange(0, 48)[34] == s[34]);
                assert(s.subrange(0, 48)[35] == s[35]);
            },
            BitmexMessageV::Snapshot(m) => {
                reveal_strlit("{\"table\":\"orderBookL2\",\"action\":\"partial\",\"keys\":");
                assert(s.subrange(0, s.len() as int) =~= s);
                lemma_split_two(s, 0, s.len() as int, "{\"table\":\"orderBookL2\",\"action\":\"partial\",\"keys\":"@, arr_text(text_item_shape(), text_items(m.keys)) + (ser_seg(snap_mid_shape(), snap_mid_vals(m)) + (arr_text(ins_entry_shape(), ins_items(m.data)) + "}"@)));
                assert(s.subrange(0, 49)[2] == s[2]);
                assert(s.subrange(0, 49)[3] == s[3]);
                assert(s.subrange(0, 49)[4] == s[4]);
                assert(s.subrange(0, 49)[10] == s[10]);
                assert(s.subrange(0, 49)[11] == s[11]);
                assert(s.subrange(0, 49)[12] == s[12]);
                assert(s.subrange(0, 49)[33] == s[33]);
                assert(s.subrange(0, 49)[34] == s[34]);
                assert(s.subrange(0, 49)[35] == s[35]);
            },
            BitmexMessageV::TradeSnapshot(m) => {
                reveal_strlit("{\"table\":\"trade\",\"action\":\"partial\",\"keys\":");
                assert(s.subrange(0, s.len() as int) =~= s);
                lemma_split_two(s, 0, s.len() as int, "{\"table\":\"trade\",\"action\":\"partial\",\"keys\":"@, arr_text(text_item_shape(), text_items(m.keys)) + (ser_seg(tsnap_mid_shape(), tsnap_mid_vals(m)) + (arr_text(trade_entry_shape(), trade_items(m.data)) + "}"@)));
                assert(s.subrange(0, 43)[2] == s[2]);
                assert(s.subrange(0, 43)[3] == s[3]);
                assert(s.subrange(0, 43)[4] == s[4]);
                assert(s.subrange(0, 43)[10] == s[10]);
                assert(s.subrange(0, 43)[11] == s[11]);
                assert(s.subrange(0, 43)[12] == s[12]);
                assert(s.subrange(0, 43)[27] == s[27]);
                assert(s.subrange(0, 43)[28] == s[28]);
                assert(s.subrange(0, 43)[29] == s[29]);
            },
            BitmexMessageV::Trade(m) => {
                reveal_strlit("{\"table\":\"trade\",\"action\":\"insert\",\"data\":");
                assert(s.subrange(0, s.len() as int) =~= s);
                lemma_split_two(s, 0, s.len() as int, "{\"table\":\"trade\",\"action\":\"insert\",\"data\":"@, arr_text(trade_entry_shape(), trade_items(m.data)) + "}"@);
                assert(s.subrange(0, 42)[2] == s[2]);
                assert(s.subrange(0, 42)[3] == s[3]);
                assert(s.subrange(0, 42)[4] == s[4]);
                assert(s.subrange(0, 42)[10] == s[10]);
                assert(s.subrange(0, 42)[11] == s[11]);
                assert(s.subrange(0, 42)[12] == s[12]);
                assert(s.subrange(0, 42)[27] == s[27]);
                assert(s.subrange(0, 42)[28] == s[28]);
                assert(s.subrange(0, 42)[29] == s[29]);
            },
    }
}

/// Classify a payload by peeking at a bounded set of fixed character
/// windows, without parsing it. Fails closed: every window is bounds
/// checked, and an unrecognized window is an error, never a guess.
pub fn classify(message: &str) -> (r: Result<CategoryTag, ParseError>)
    ensures
        r == spec_classify(message@),
{
    let n = message.unicode_len();
    if n < 5 {
        return Err(ParseError::Truncated);
    }
    let c2 = message.get_char(2);
    let c3 = message.get_char(3);
    let c4 = message.get_char(4);
    if c2 == 'i' && c3 == 'n' && c4 == 'f' {
        return Ok(CategoryTag::Info);
    }
    if c2 == 's' && c3 == 'u' && c4 == 'c' {
        return Ok(CategoryTag::Subscribe);
    }
    if !(c2 == 't' && c3 == 'a' && c4 == 'b') {
        return Err(ParseError::Invalid);
    }
    if n < 13 {
        return Err(ParseError::Truncated);
    }
    let t0 = message.get_char(10);
    let t1 = message.get_char(11);
    let t2 = message.get_char(12);
    if t0 == 't' && t1 == 'r' && t2 == 'a' {
        if n < 30 {
            return Err(ParseError::Truncated);
        }
        let a0 = message.get_char(27);
        let a1 = message.get_char(28);
        let a2 = message.get_char(29);
        if a0 == 'p' && a1 == 'a' && a2 == 'r' {
            return Ok(CategoryTag::TradeSnapshot);
        }
        if a0 == 'i' && a1 == 'n' && a2 == 's' {
            return Ok(CategoryTag::Trade);
        }
        return Err(ParseError::InvalidAction);
    }
    if t0 == 'o' && t1 == 'r' && t2 == 'd' {
        if n < 36 {
            return Err(ParseError::Truncated);
        }
        let a0 = message.get_char(33);
        let a1 = message.get_char(34);
        let a2 = message.get_char(35);
        if a0 == 'p' && a1 == 'a' && a2 == 'r' {
            return Ok(CategoryTag::Snapshot);
        }
        if a0 == 'u' && a1 == 'p' && a2 == 'd' {
            return Ok(CategoryTag::Update);
        }
        if a0 == 'i' && a1 == 'n' && a2 == 's' {
            return Ok(CategoryTag::Insert);
        }
        if a0 == 'd' && a1 == 'e' && a2 == 'l' {
            return Ok(CategoryTag::Delete);
        }
        return Err(ParseError::InvalidAction);
    }
    Err(ParseError::InvalidTable)
}

/// Decode a payload as the classified category. Exact: it returns the
/// unique record whose wire text the payload is, and a recoverable error
/// naming the category when the body does not have that shape.
#[verifier::rlimit(100)]
pub fn decode(message: &str, tag: CategoryTag) -> (r: Result<BitmexMessage, ParseError>)
    ensures
        r matches Ok(m) ==> msg_at(message@, m.deep_view()) && tag_of(m.deep_view()) == tag,
        forall|mv: BitmexMessageV|
            msg_at(message@, mv) && tag_of(mv) == tag ==> (r matches Ok(m) && m.deep_view() == mv),
        r is Err ==> r == Err::<BitmexMessage, ParseError>(ParseError::Malformed(tag)),
{
    match tag {
        CategoryTag::Info => {
            let r0 = decode_info(message);
            match r0 {
                Ok(m) => {
                    let res = BitmexMessage::Info(m);
                    proof {
                        assert forall|mv: BitmexMessageV|
                            msg_at(message@, mv) && tag_of(mv) == CategoryTag::Info implies
                            res.deep_view() == mv by {
                            match mv {
                                BitmexMessageV::Info(inner) => {
                                    assert(info_at(message@, inner));
                                },
                                _ => {
                                },
                            }
                        }
                    }
                    Ok(res)
                },
                Err(e) => {
                    proof {
                        assert forall|mv: BitmexMessageV|
                            !(msg_at(message@, mv) && tag_of(mv) == CategoryTag::Info) by {
                            if msg_at(message@, mv) && tag_of(mv) == CategoryTag::Info {
                                match mv {
                                    BitmexMessageV::Info(inner) => {
                                        assert(info_at(message@, inner));
                                    },
                                    _ => {
                                    },
                                }
                            }
                        }
                    }
                    Err(e)
                },
            }
        },
        CategoryTag::Subscribe => {
            let r0 = decode_subscribe(message);
            match r0 {
                Ok(m) => {
                    let res = BitmexMessage::Subscribe(m);
                    proof {
                        assert forall|mv: BitmexMessageV|
                            msg_at(message@, mv) && tag_of(mv) == CategoryTag::Subscribe implies
                            res.deep_view() == mv by {
                            match mv {
                                BitmexMessageV::Subscribe(inner) => {
                                    assert(subscribe_at(message@, inner));
                                },
                                _ => {
                                },
                            }
                        }
                    }
                    Ok(res)
                },
                Err(e) => {
                    proof {
                        assert forall|mv: BitmexMessageV|
                            !(msg_at(message@, mv) && tag_of(mv) == CategoryTag::Subscribe) by {
                            if msg_at(message@, mv) && tag_of(mv) == CategoryTag::Subscribe {
                                match mv {
                                    BitmexMessageV::Subscribe(inner) => {
                                        assert(subscribe_at(message@, inner));
                                    },
                                    _ => {
                                    },
                                }
                            }
                        }
                    }
                    Err(e)
                },
            }
        },
        CategoryTag::Snapshot => {
            let r0 = decode_snapshot(message);
            match r0 {
                Ok(m) => {
                    let res = BitmexMessage::Snapshot(m);
                    proof {
                        assert forall|mv: BitmexMessageV|
                            msg_at(message@, mv) && tag_of(mv) == CategoryTag::Snapshot implies
                            res.deep_view() == mv by {
                            match mv {
                                BitmexMessageV::Snapshot(inner) => {
                                    assert(snapshot_at(message@, inner));
                                },
                                _ => {
                                },
                            }
                        }
                    }
                    Ok(res)
                },
                Err(e) => {
                    proof {
                        assert forall|mv: BitmexMessageV|
                            !(msg_at(message@, mv) && tag_of(mv) == CategoryTag::Snapshot) by {
                            if msg_at(message@, mv) && tag_of(mv) == CategoryTag::Snapshot {
                                match mv {
                                    BitmexMessageV::Snapshot(inner) => {
                                        assert(snapshot_at(message@, inner));
                                    },
                                    _ => {
                                    },
                                }
                            }
                        }
                    }
                    Err(e)
                },
            }
        },
        CategoryTag::Update => {
            let r0 = decode_update(message);
            match r0 {
                Ok(m) => {
                    let res = BitmexMessage::Update(m);
                    proof {
                        assert forall|mv: BitmexMessageV|
                            msg_at(message@, mv) && tag_of(mv) == CategoryTag::Update implies
                            res.deep_view() == mv by {
                            match mv {
                                BitmexMessageV::Update(inner) => {
                                    assert(update_at(message@, inner));
                                },
                                _ => {
                                },
                            }
                        }
                    }
                    Ok(res)
                },
                Err(e) => {
                    proof {
                        assert forall|mv: BitmexMessageV|
                            !(msg_at(message@, mv) && tag_of(mv) == CategoryTag::Update) by {
                            if msg_at(message@, mv) && tag_of(mv) == CategoryTag::Update {
                                match mv {
                                    BitmexMessageV::Update(inner) => {
                                        assert(update_at(message@, inner));
                                    },
                                    _ => {
                                    },
                                }
                            }
                        }
                    }
                    Err(e)
                },
            }
        },
        CategoryTag::Insert => {
            let r0 = decode_insert(message);
            match r0 {
                Ok(m) => {
                    let res = BitmexMessage::Insert(m);
                    proof {
                        assert forall|mv: BitmexMessageV|
                            msg_at(message@, mv) && tag_of(mv) == CategoryTag::Insert implies
                            res.deep_view() == mv by {
                            match mv {
                                BitmexMessageV::Insert(inner) => {
                                    assert(insert_at(message@, inner));
                                },
                                _ => {
                                },
                            }
                        }
                    }
                    Ok(res)
                },
                Err(e) => {
                    proof {
                        assert forall|mv: BitmexMessageV|
                            !(msg_at(message@, mv) && tag_of(mv) == CategoryTag::Insert) by {
                            if msg_at(message@, mv) && tag_of(mv) == CategoryTag::Insert {
                                match mv {
                                    BitmexMessageV::Insert(inner) => {
                                        assert(insert_at(message@, inner));
                                    },
                                    _ => {
                                    },
                                }
                            }
                        }
                    }
                    Err(e)
                },
            }
        },
        CategoryTag::Delete => {
            let r0 = decode_delete(message);
            match r0 {
                Ok(m) => {
                    let res = BitmexMessage::Delete(m);
                    proof {
                        assert forall|mv: BitmexMessageV|
                            msg_at(message@, mv) && tag_of(mv) == CategoryTag::Delete implies
                            res.deep_view() == mv by {
                            match mv {
                                BitmexMessageV::Delete(inner) => {
                                    assert(delete_at(message@, inner));
                                },
                                _ => {
                                },
                            }
                        }
                    }
                    Ok(res)
                },
                Err(e) => {
                    proof {
                        assert forall|mv: BitmexMessageV|
                            !(msg_at(message@, mv) && tag_of(mv) == CategoryTag::Delete) by {
                            if msg_at(message@, mv) && tag_of(mv) == CategoryTag::Delete {
                                match mv {
                                    BitmexMessageV::Delete(inner) => {
                                        assert(delete_at(message@, inner));
                                    },
                                    _ => {
                                    },
                                }
                            }
                        }
                    }
                    Err(e)
                },
            }
        },
        CategoryTag::TradeSnapshot => {
            let r0 = decode_tsnapshot(message);
            match r0 {
                Ok(m) => {
                    let res = BitmexMessage::TradeSnapshot(m);
                    proof {
                        assert forall|mv: BitmexMessageV|
                            msg_at(message@, mv) && tag_of(mv) == CategoryTag::TradeSnapshot implies
                            res.deep_view() == mv by {
                            match mv {
                                BitmexMessageV::TradeSnapshot(inner) => {
                                    assert(tsnapshot_at(message@, inner));
                                },
                                _ => {
                                },
                            }
                        }
                    }
                    Ok(res)
                },
                Err(e) => {
                    proof {
                        assert forall|mv: BitmexMessageV|
                            !(msg_at(message@, mv) && tag_of(mv) == CategoryTag::TradeSnapshot) by {
                            if msg_at(message@, mv) && tag_of(mv) == CategoryTag::TradeSnapshot {
                                match mv {
                                    BitmexMessageV::TradeSnapshot(inner) => {
                                        assert(tsnapshot_at(message@, inner));
                                    },
                                    _ => {
                                    },
                                }
                            }
                        }
                    }
                    Err(e)
                },
            }
        },
        CategoryTag::Trade => {
            let r0 = decode_trade(message);
            match r0 {
                Ok(m) => {
                    let res = BitmexMessage::Trade(m);
                    proof {
                        assert forall|mv: BitmexMessageV|
                            msg_at(message@, mv) && tag_of(mv) == CategoryTag::Trade implies
                            res.deep_view() == mv by {
                            match mv {
                                BitmexMessageV::Trade(inner) => {
                                    assert(trade_at(message@, inner));
                                },
                                _ => {
                                },
                            }
                        }
                    }
                    Ok(res)
                },
                Err(e) => {
                    proof {
                        assert forall|mv: BitmexMessageV|
                            !(msg_at(message@, mv) && tag_of(mv) == CategoryTag::Trade) by {
                            if msg_at(message@, mv) && tag_of(mv) == CategoryTag::Trade {
                                match mv {
                                    BitmexMessageV::Trade(inner) => {
                                        assert(trade_at(message@, inner));
                                    },
                                    _ => {
                                    },
                                }
                            }
                        }
                    }
                    Err(e)
                },
            }
        },
    }
}

/// Classify and decode a payload in one step. Exact: a payload that is
/// the wire text of a well-formed record decodes to that record and to no
/// other, and anything else is refused with a recoverable error.
pub fn parse(message: &str) -> (r: Result<BitmexMessage, ParseError>)
    ensures
        r matches Ok(m) ==> msg_at(message@, m.deep_view()),
        forall|mv: BitmexMessageV| msg_at(message@, mv) ==> (r matches Ok(m) && m.deep_view()
            == mv),
        r matches Err(e) ==> (match spec_classify(message@) {
            Err(e0) => e == e0,
            Ok(t) => e == ParseError::Malformed(t),
        }),
{
    let c = classify(message);
    match c {
        Err(e) => {
            proof {
                assert forall|mv: BitmexMessageV| !msg_at(message@, mv) by {
                    if msg_at(message@, mv) {
                        lemma_classify_serialized(message@, mv);
                    }
                }
            }
            Err(e)
        },
        Ok(tag) => {
            let r = decode(message, tag);
            proof {
                assert forall|mv: BitmexMessageV| msg_at(message@, mv) implies (r matches Ok(m)
                    && m.deep_view() == mv) by {
                    lemma_classify_serialized(message@, mv);
                }
            }
            r
        },
    }
}


proof fn lemma_info_shape_ok()
    ensures
        shape_ok(info_shape()),
{
    reveal_strlit(",\"limit\":{\"remaining\":");
    reveal_strlit("}}");

    assert forall|k: int|
        0 <= k < info_shape().len() && ((#[trigger] info_shape()[k]) is NumTok || info_shape()[k] is QuantTok) implies k
        + 1 < info_shape().len() && crate::pieces::delim_ok(info_shape()[k + 1]) by {
            assert(k == 9);
    }
}

proof fn lemma_subscribe_shape_ok()
    ensures
        shape_ok(subscribe_shape()),
{


    assert forall|k: int|
        0 <= k < subscribe_shape().len() && ((#[trigger] subscribe_shape()[k]) is NumTok || subscribe_shape()[k] is QuantTok) implies k
        + 1 < subscribe_shape().len() && crate::pieces::delim_ok(subscribe_shape()[k + 1]) by {
            assert(!((subscribe_shape()[k]) is NumTok || subscribe_shape()[k] is QuantTok));
    }
}

proof fn lemma_upd_entry_shape_ok()
    ensures
        shape_ok(upd_entry_shape()),
        head_opens(upd_entry_shape()),
{
    reveal_strlit(",\"side\":");
    reveal_strlit("}");
    reveal_strlit("{\"symbol\":");
    assert forall|k: int|
        0 <= k < upd_entry_shape().len() && ((#[trigger] upd_entry_shape()[k]) is NumTok || upd_entry_shape()[k] is QuantTok) implies k
        + 1 < upd_entry_shape().len() && crate::pieces::delim_ok(upd_entry_shape()[k + 1]) by {
            assert(k == 3 || k == 7);
    }
}

proof fn lemma_del_entry_shape_ok()
    ensures
        shape_ok(del_entry_shape()),
        head_opens(del_entry_shape()),
{
    reveal_strlit(",\"side\":");
    reveal_strlit("{\"symbol\":");
    assert forall|k: int|
        0 <= k < del_entry_shape().len() && ((#[trigger] del_entry_shape()[k]) is NumTok || del_entry_shape()[k] is QuantTok) implies k
        + 1 < del_entry_shape().len() && crate::pieces::delim_ok(del_entry_shape()[k + 1]) by {
            assert(k == 3);
    }
}

proof fn lemma_ins_entry_shape_ok()
    ensures
        shape_ok(ins_entry_shape()),
        head_opens(ins_entry_shape()),
{
    reveal_strlit(",\"side\":");
    reveal_strlit(",\"price\":");
    reveal_strlit("}");
    reveal_strlit("{\"symbol\":");
    assert forall|k: int|
        0 <= k < ins_entry_shape().len() && ((#[trigger] ins_entry_shape()[k]) is NumTok || ins_entry_shape()[k] is QuantTok) implies k
        + 1 < ins_entry_shape().len() && crate::pieces::delim_ok(ins_entry_shape()[k + 1]) by {
            assert(k == 3 || k == 7 || k == 9);
    }
}

proof fn lemma_trade_entry_shape_ok()
    ensures
        shape_ok(trade_entry_shape()),
        head_opens(trade_entry_shape()),
{
    reveal_strlit(",\"price\":");
    reveal_strlit(",\"tickDirection\":");
    reveal_strlit(",\"homeNotional\":");
    reveal_strlit(",\"foreignNotional\":");
    reveal_strlit("}");
    reveal_strlit("{\"timestamp\":");
    assert forall|k: int|
        0 <= k < trade_entry_shape().len() && ((#[trigger] trade_entry_shape()[k]) is NumTok || trade_entry_shape()[k] is QuantTok) implies k
        + 1 < trade_entry_shape().len() && crate::pieces::delim_ok(trade_entry_shape()[k + 1]) by {
            assert(k == 7 || k == 9 || k == 15 || k == 17 || k == 19);
    }
}

proof fn lemma_snap_mid_shape_ok()
    ensures
        shape_ok(snap_mid_shape()),
{


    assert forall|k: int|
        0 <= k < snap_mid_shape().len() && ((#[trigger] snap_mid_shape()[k]) is NumTok || snap_mid_shape()[k] is QuantTok) implies k
        + 1 < snap_mid_shape().len() && crate::pieces::delim_ok(snap_mid_shape()[k + 1]) by {
            assert(!((snap_mid_shape()[k]) is NumTok || snap_mid_shape()[k] is QuantTok));
    }
}

proof fn lemma_tsnap_mid_shape_ok()
    ensures
        shape_ok(tsnap_mid_shape()),
{


    assert forall|k: int|
        0 <= k < tsnap_mid_shape().len() && ((#[trigger] tsnap_mid_shape()[k]) is NumTok || tsnap_mid_shape()[k] is QuantTok) implies k
        + 1 < tsnap_mid_shape().len() && crate::pieces::delim_ok(tsnap_mid_shape()[k + 1]) by {
            assert(!((tsnap_mid_shape()[k]) is NumTok || tsnap_mid_shape()[k] is QuantTok));
    }
}

proof fn lemma_text_item_shape_ok()
    ensures
        shape_ok(text_item_shape()),
        head_opens(text_item_shape()),
{


    assert forall|k: int|
        0 <= k < text_item_shape().len() && ((#[trigger] text_item_shape()[k]) is NumTok || text_item_shape()[k] is QuantTok) implies k
        + 1 < text_item_shape().len() && crate::pieces::delim_ok(text_item_shape()[k + 1]) by {
            assert(!((text_item_shape()[k]) is NumTok || text_item_shape()[k] is QuantTok));
    }
}

/// A payload carries at most one well-formed message: the wire format is
/// unambiguous, so classification and decoding can never confuse two
/// records.

#[verifier::rlimit(100)]
proof fn lemma_unambiguous_info(s: Seq<char>, m1: InfoMessageV, m2: InfoMessageV)
    requires
        info_at(s, m1),
        info_at(s, m2),
    ensures
        m1 == m2,
{
    lemma_info_shape_ok();
    assert(s.subrange(0, s.len() as int) =~= s);
    assert(seg_at(s, 0, s.len() as int, info_shape(), info_vals(m1)));
    assert(seg_at(s, 0, s.len() as int, info_shape(), info_vals(m2)));
    lemma_seg_unique(s, 0, s.len() as int, s.len() as int, info_shape(), info_vals(m1), info_vals(m2));
    assert(info_vals(m1)[0] == FieldValV::S(m1.info));
    assert(info_vals(m2)[0] == FieldValV::S(m2.info));
    assert(info_vals(m1)[1] == FieldValV::S(m1.version));
    assert(info_vals(m2)[1] == FieldValV::S(m2.version));
    assert(info_vals(m1)[2] == FieldValV::S(m1.timestamp));
    assert(info_vals(m2)[2] == FieldValV::S(m2.timestamp));
    assert(info_vals(m1)[3] == FieldValV::S(m1.docs));
    assert(info_vals(m2)[3] == FieldValV::S(m2.docs));
    assert(info_vals(m1)[4] == FieldValV::N(m1.limit.remaining));
    assert(info_vals(m2)[4] == FieldValV::N(m2.limit.remaining));
}

#[verifier::rlimit(100)]
proof fn lemma_unambiguous_subscribe(s: Seq<char>, m1: SubscribeMessageV, m2: SubscribeMessageV)
    requires
        subscribe_at(s, m1),
        subscribe_at(s, m2),
    ensures
        m1 == m2,
{
    lemma_subscribe_shape_ok();
    lemma_text_item_shape_ok();
    assert(s.subrange(0, s.len() as int) =~= s);
    let sg1 = ser_seg(subscribe_shape(), subscribe_vals(m1));
    let sg2 = ser_seg(subscribe_shape(), subscribe_vals(m2));
    let ka1 = arr_text(text_item_shape(), text_items(m1.request.args));
    let ka2 = arr_text(text_item_shape(), text_items(m2.request.args));
    lemma_split_two(s, 0, s.len() as int, sg1, ka1 + "}}"@);
    lemma_split_two(s, 0, s.len() as int, sg2, ka2 + "}}"@);
    assert(seg_at(s, 0, sg1.len() as int, subscribe_shape(), subscribe_vals(m1)));
    assert(seg_at(s, 0, sg2.len() as int, subscribe_shape(), subscribe_vals(m2)));
    lemma_seg_unique(
        s,
        0,
        sg1.len() as int,
        sg2.len() as int,
        subscribe_shape(),
        subscribe_vals(m1),
        subscribe_vals(m2),
    );
    assert(subscribe_vals(m1)[0] == FieldValV::B(m1.success));
    assert(subscribe_vals(m2)[0] == FieldValV::B(m2.success));
    assert(subscribe_vals(m1)[1] == FieldValV::S(m1.subscribe));
    assert(subscribe_vals(m2)[1] == FieldValV::S(m2.subscribe));
    assert(subscribe_vals(m1)[2] == FieldValV::S(m1.request.op));
    assert(subscribe_vals(m2)[2] == FieldValV::S(m2.request.op));
    lemma_split_two(s, sg1.len() as int, s.len() as int, ka1, "}}"@);
    lemma_split_two(s, sg1.len() as int, s.len() as int, ka2, "}}"@);
    assert(arr_at(s, sg1.len() as int, sg1.len() as int + ka1.len() as int, text_item_shape(), text_items(m1.request.args)));
    assert(arr_at(s, sg1.len() as int, sg1.len() as int + ka2.len() as int, text_item_shape(), text_items(m2.request.args)));
    lemma_arr_unique(
        s,
        sg1.len() as int,
        sg1.len() as int + ka1.len() as int,
        sg1.len() as int + ka2.len() as int,
        text_item_shape(),
        text_items(m1.request.args),
        text_items(m2.request.args),
    );
    assert forall|k: int| 0 <= k < m1.request.args.len() implies m1.request.args[k]
        == m2.request.args[k] by {
        assert(text_items(m1.request.args)[k] == seq![FieldValV::S(m1.request.args[k])]);
        assert(text_items(m2.request.args)[k] == seq![FieldValV::S(m2.request.args[k])]);
        assert(seq![FieldValV::S(m1.request.args[k])][0] == seq![
            FieldValV::S(m2.request.args[k]),
        ][0]);
    }
    assert(m1.request.args =~= m2.request.args);
}

#[verifier::rlimit(100)]
proof fn lemma_unambiguous_update(s: Seq<char>, m1: UpdateMessageV, m2: UpdateMessageV)
    requires
        update_at(s, m1),
        update_at(s, m2),
    ensures
        m1 == m2,
{
    lemma_upd_entry_shape_ok();
    assert(s.subrange(0, s.len() as int) =~= s);
    let a1 = arr_text(upd_entry_shape(), upd_items(m1.data));
    let a2 = arr_text(upd_entry_shape(), upd_items(m2.data));
    lemma_split_two(s, 0, s.len() as int, "{\"table\":\"orderBookL2\",\"action\":\"update\",\"data\":"@, a1 + "}"@);
    lemma_split_two(s, 0, s.len() as int, "{\"table\":\"orderBookL2\",\"action\":\"update\",\"data\":"@, a2 + "}"@);
    let j1 = "{\"table\":\"orderBookL2\",\"action\":\"update\",\"data\":"@.len() as int;
    lemma_split_two(s, j1, s.len() as int, a1, "}"@);
    lemma_split_two(s, j1, s.len() as int, a2, "}"@);
    assert(arr_at(s, j1, j1 + a1.len(), upd_entry_shape(), upd_items(m1.data)));
    assert(arr_at(s, j1, j1 + a2.len(), upd_entry_shape(), upd_items(m2.data)));
    lemma_arr_unique(
        s,
        j1,
        j1 + a1.len(),
        j1 + a2.len(),
        upd_entry_shape(),
        upd_items(m1.data),
        upd_items(m2.data),
    );
    assert forall|k: int| 0 <= k < m1.data.len() implies m1.data[k] == m2.data[k] by {
        assert(upd_items(m1.data)[k] == upd_entry_vals(m1.data[k]));
        assert(upd_items(m2.data)[k] == upd_entry_vals(m2.data[k]));
        let a = upd_entry_vals(m1.data[k]);
        let b = upd_entry_vals(m2.data[k]);
            assert(a[0] == FieldValV::S(m1.data[k].symbol));
            assert(b[0] == FieldValV::S(m2.data[k].symbol));
            assert(a[1] == FieldValV::N(m1.data[k].id));
            assert(b[1] == FieldValV::N(m2.data[k].id));
            assert(a[2] == FieldValV::S(m1.data[k].side));
            assert(b[2] == FieldValV::S(m2.data[k].side));
            assert(a[3] == FieldValV::N(m1.data[k].size));
            assert(b[3] == FieldValV::N(m2.data[k].size));
    }
    assert(m1.data =~= m2.data);
}

#[verifier::rlimit(100)]
proof fn lemma_unambiguous_delete(s: Seq<char>, m1: DeleteMessageV, m2: DeleteMessageV)
    requires
        delete_at(s, m1),
        delete_at(s, m2),
    ensures
        m1 == m2,
{
    lemma_del_entry_shape_ok();
    assert(s.subrange(0, s.len() as int) =~= s);
    let a1 = arr_text(del_entry_shape(), del_items(m1.data));
    let a2 = arr_text(del_entry_shape(), del_items(m2.data));
    lemma_split_two(s, 0, s.len() as int, "{\"table\":\"orderBookL2\",\"action\":\"delete\",\"data\":"@, a1 + "}"@);
    lemma_split_two(s, 0, s.len() as int, "{\"table\":\"orderBookL2\",\"action\":\"delete\",\"data\":"@, a2 + "}"@);
    let j1 = "{\"table\":\"orderBookL2\",\"action\":\"delete\",\"data\":"@.len() as int;
    lemma_split_two(s, j1, s.len() as int, a1, "}"@);
    lemma_split_two(s, j1, s.len() as int, a2, "}"@);
    assert(arr_at(s, j1, j1 + a1.len(), del_entry_shape(), del_items(m1.data)));
    assert(arr_at(s, j1, j1 + a2.len(), del_entry_shape(), del_items(m2.data)));
    lemma_arr_unique(
        s,
        j1,
        j1 + a1.len(),
        j1 + a2.len(),
        del_entry_shape(),
        del_items(m1.data),
        del_items(m2.data),
    );
    assert forall|k: int| 0 <= k < m1.data.len() implies m1.data[k] == m2.data[k] by {
        assert(del_items(m1.data)[k] == del_entry_vals(m1.data[k]));
        assert(del_items(m2.data)[k] == del_entry_vals(m2.data[k]));
        let a = del_entry_vals(m1.data[k]);
        let b = del_entry_vals(m2.data[k]);
            assert(a[0] == FieldValV::S(m1.data[k].symbol));
            assert(b[0] == FieldValV::S(m2.data[k].symbol));
            assert(a[1] == FieldValV::N(m1.data[k].id));
            assert(b[1] == FieldValV::N(m2.data[k].id));
            assert(a[2] == FieldValV::S(m1.data[k].side));
            assert(b[2] == FieldValV::S(m2.data[k].side));
    }
    assert(m1.data =~= m2.data);
}

#[verifier::rlimit(100)]
proof fn lemma_unambiguous_insert(s: Seq<char>, m1: InsertMessageV, m2: InsertMessageV)
    requires
        insert_at(s, m1),
        insert_at(s, m2),
    ensures
        m1 == m2,
{
    lemma_ins_entry_shape_ok();
    assert(s.subrange(0, s.len() as int) =~= s);
    let a1 = arr_text(ins_entry_shape(), ins_items(m1.data));
    let a2 = arr_text(ins_entry_shape(), ins_items(m2.data));
    lemma_split_two(s, 0, s.len() as int, "{\"table\":\"orderBookL2\",\"action\":\"insert\",\"data\":"@, a1 + "}"@);
    lemma_split_two(s, 0, s.len() as int, "{\"table\":\"orderBookL2\",\"action\":\"insert\",\"data\":"@, a2 + "}"@);
    let j1 = "{\"table\":\"orderBookL2\",\"action\":\"insert\",\"data\":"@.len() as int;
    lemma_split_two(s, j1, s.len() as int, a1, "}"@);
    lemma_split_two(s, j1, s.len() as int, a2, "}"@);
    assert(arr_at(s, j1, j1 + a1.len(), ins_entry_shape(), ins_items(m1.data)));
    assert(arr_at(s, j1, j1 + a2.len(), ins_entry_shape(), ins_items(m2.data)));
    lemma_arr_unique(
        s,
        j1,
        j1 + a1.len(),
        j1 + a2.len(),
        ins_entry_shape(),
        ins_items(m1.data),
        ins_items(m2.data),
    );
    assert forall|k: int| 0 <= k < m1.data.len() implies m1.data[k] == m2.data[k] by {
        assert(ins_items(m1.data)[k] == ins_entry_vals(m1.data[k]));
        assert(ins_items(m2.data)[k] == ins_entry_vals(m2.data[k]));
        let a = ins_entry_vals(m1.data[k]);
        let b = ins_entry_vals(m2.data[k]);
            assert(a[0] == FieldValV::S(m1.data[k].symbol));
            assert(b[0] == FieldValV::S(m2.data[k].symbol));
            assert(a[1] == FieldValV::N(m1.data[k].id));
            assert(b[1] == FieldValV::N(m2.data[k].id));
            assert(a[2] == FieldValV::S(m1.data[k].side));
            assert(b[2] == FieldValV::S(m2.data[k].side));
            assert(a[3] == FieldValV::N(m1.data[k].size));
            assert(b[3] == FieldValV::N(m2.data[k].size));
            assert(a[4] == FieldValV::D(m1.data[k].price));
            assert(b[4] == FieldValV::D(m2.data[k].price));
    }
    assert(m1.data =~= m2.data);
}

#[verifier::rlimit(100)]
proof fn lemma_unambiguous_trade(s: Seq<char>, m1: TradeMessageV, m2: TradeMessageV)
    requires
        trade_at(s, m1),
        trade_at(s, m2),
    ensures
        m1 == m2,
{
    lemma_trade_entry_shape_ok();
    assert(s.subrange(0, s.len() as int) =~= s);
    let a1 = arr_text(trade_entry_shape(), trade_items(m1.data));
    let a2 = arr_text(trade_entry_shape(), trade_items(m2.data));
    lemma_split_two(s, 0, s.len() as int, "{\"table\":\"trade\",\"action\":\"insert\",\"data\":"@, a1 + "}"@);
    lemma_split_two(s, 0, s.len() as int, "{\"table\":\"trade\",\"action\":\"insert\",\"data\":"@, a2 + "}"@);
    let j1 = "{\"table\":\"trade\",\"action\":\"insert\",\"data\":"@.len() as int;
    lemma_split_two(s, j1, s.len() as int, a1, "}"@);
    lemma_split_two(s, j1, s.len() as int, a2, "}"@);
    assert(arr_at(s, j1, j1 + a1.len(), trade_entry_shape(), trade_items(m1.data)));
    assert(arr_at(s, j1, j1 + a2.len(), trade_entry_shape(), trade_items(m2.data)));
    lemma_arr_unique(
        s,
        j1,
        j1 + a1.len(),
        j1 + a2.len(),
        trade_entry_shape(),
        trade_items(m1.data),
        trade_items(m2.data),
    );
    assert forall|k: int| 0 <= k < m1.data.len() implies m1.data[k] == m2.data[k] by {
        assert(trade_items(m1.data)[k] == trade_entry_vals(m1.data[k]));
        assert(trade_items(m2.data)[k] == trade_entry_vals(m2.data[k]));
        let a = trade_entry_vals(m1.data[k]);
        let b = trade_entry_vals(m2.data[k]);
            assert(a[0] == FieldValV::S(m1.data[k].timestamp));
            assert(b[0] == FieldValV::S(m2.data[k].timestamp));
            assert(a[1] == FieldValV::S(m1.data[k].symbol));
            assert(b[1] == FieldValV::S(m2.data[k].symbol));
            assert(a[2] == FieldValV::S(m1.data[k].side));
            assert(b[2] == FieldValV::S(m2.data[k].side));
            assert(a[3] == FieldValV::D(m1.data[k].size));
            assert(b[3] == FieldValV::D(m2.data[k].size));
            assert(a[4] == FieldValV::D(m1.data[k].price));
            assert(b[4] == FieldValV::D(m2.data[k].price));
            assert(a[5] == FieldValV::S(m1.data[k].tick_direction));
            assert(b[5] == FieldValV::S(m2.data[k].tick_direction));
            assert(a[6] == FieldValV::S(m1.data[k].trd_match_id));
            assert(b[6] == FieldValV::S(m2.data[k].trd_match_id));
            assert(a[7] == FieldValV::D(m1.data[k].gross_value));
            assert(b[7] == FieldValV::D(m2.data[k].gross_value));
            assert(a[8] == FieldValV::D(m1.data[k].home_notional));
            assert(b[8] == FieldValV::D(m2.data[k].home_notional));
            assert(a[9] == FieldValV::D(m1.data[k].foreign_notional));
            assert(b[9] == FieldValV::D(m2.data[k].foreign_notional));
    }
    assert(m1.data =~= m2.data);
}

#[verifier::rlimit(100)]
proof fn lemma_unambiguous_snapshot(s: Seq<char>, m1: SnapshotMessageV, m2: SnapshotMessageV)
    requires
        snapshot_at(s, m1),
        snapshot_at(s, m2),
    ensures
        m1 == m2,
{
    lemma_ins_entry_shape_ok();
    lemma_text_item_shape_ok();
    lemma_snap_mid_shape_ok();
    lemma_snapshot_splits(s, m1);
    lemma_snapshot_splits(s, m2);
    let l1 = "{\"table\":\"orderBookL2\",\"action\":\"partial\",\"keys\":"@.len() as int;
    let ka1 = arr_text(text_item_shape(), text_items(m1.keys));
    let ka2 = arr_text(text_item_shape(), text_items(m2.keys));
    lemma_arr_unique(
        s,
        l1,
        l1 + ka1.len(),
        l1 + ka2.len(),
        text_item_shape(),
        text_items(m1.keys),
        text_items(m2.keys),
    );
    let mid1 = ser_seg(snap_mid_shape(), snap_mid_vals(m1));
    let mid2 = ser_seg(snap_mid_shape(), snap_mid_vals(m2));
    lemma_seg_unique(
        s,
        l1 + ka1.len(),
        l1 + ka1.len() + mid1.len(),
        l1 + ka2.len() + mid2.len(),
        snap_mid_shape(),
        snap_mid_vals(m1),
        snap_mid_vals(m2),
    );
    let p = l1 + ka1.len() + mid1.len();
    let da1 = arr_text(ins_entry_shape(), ins_items(m1.data));
    let da2 = arr_text(ins_entry_shape(), ins_items(m2.data));
    lemma_arr_unique(
        s,
        p,
        p + da1.len(),
        p + da2.len(),
        ins_entry_shape(),
        ins_items(m1.data),
        ins_items(m2.data),
    );
    assert(snap_mid_vals(m1)[0] == FieldValV::S(m1.types.symbol));
    assert(snap_mid_vals(m2)[0] == FieldValV::S(m2.types.symbol));
    assert(snap_mid_vals(m1)[1] == FieldValV::S(m1.types.id));
    assert(snap_mid_vals(m2)[1] == FieldValV::S(m2.types.id));
    assert(snap_mid_vals(m1)[2] == FieldValV::S(m1.types.side));
    assert(snap_mid_vals(m2)[2] == FieldValV::S(m2.types.side));
    assert(snap_mid_vals(m1)[3] == FieldValV::S(m1.types.size));
    assert(snap_mid_vals(m2)[3] == FieldValV::S(m2.types.size));
    assert(snap_mid_vals(m1)[4] == FieldValV::S(m1.types.price));
    assert(snap_mid_vals(m2)[4] == FieldValV::S(m2.types.price));
    assert(snap_mid_vals(m1)[5] == FieldValV::S(m1.foreign_keys.symbol));
    assert(snap_mid_vals(m2)[5] == FieldValV::S(m2.foreign_keys.symbol));
    assert(snap_mid_vals(m1)[6] == FieldValV::S(m1.foreign_keys.side));
    assert(snap_mid_vals(m2)[6] == FieldValV::S(m2.foreign_keys.side));
    assert(snap_mid_vals(m1)[7] == FieldValV::S(m1.attributes.symbol));
    assert(snap_mid_vals(m2)[7] == FieldValV::S(m2.attributes.symbol));
    assert(snap_mid_vals(m1)[8] == FieldValV::S(m1.attributes.id));
    assert(snap_mid_vals(m2)[8] == FieldValV::S(m2.attributes.id));
    assert(snap_mid_vals(m1)[9] == FieldValV::S(m1.filter.symbol));
    assert(snap_mid_vals(m2)[9] == FieldValV::S(m2.filter.symbol));
    assert forall|k: int| 0 <= k < m1.keys.len() implies m1.keys[k] == m2.keys[k] by {
        assert(text_items(m1.keys)[k] == seq![FieldValV::S(m1.keys[k])]);
        assert(text_items(m2.keys)[k] == seq![FieldValV::S(m2.keys[k])]);
        assert(seq![FieldValV::S(m1.keys[k])][0] == seq![FieldValV::S(m2.keys[k])][0]);
    }
    assert(m1.keys =~= m2.keys);
    assert forall|k: int| 0 <= k < m1.data.len() implies m1.data[k] == m2.data[k] by {
        assert(ins_items(m1.data)[k] == ins_entry_vals(m1.data[k]));
        assert(ins_items(m2.data)[k] == ins_entry_vals(m2.data[k]));
        let a = ins_entry_vals(m1.data[k]);
        let b = ins_entry_vals(m2.data[k]);
            assert(a[0] == FieldValV::S(m1.data[k].symbol));
            assert(b[0] == FieldValV::S(m2.data[k].symbol));
            assert(a[1] == FieldValV::N(m1.data[k].id));
            assert(b[1] == FieldValV::N(m2.data[k].id));
            assert(a[2] == FieldValV::S(m1.data[k].side));
            assert(b[2] == FieldValV::S(m2.data[k].side));
            assert(a[3] == FieldValV::N(m1.data[k].size));
            assert(b[3] == FieldValV::N(m2.data[k].size));
            assert(a[4] == FieldValV::D(m1.data[k].price));
            assert(b[4] == FieldValV::D(m2.data[k].price));
    }
    assert(m1.data =~= m2.data);
}

#[verifier::rlimit(100)]
proof fn lemma_unambiguous_tradesnapshot(s: Seq<char>, m1: TradeSnapshotMessageV, m2: TradeSnapshotMessageV)
    requires
        tsnapshot_at(s, m1),
        tsnapshot_at(s, m2),
    ensures
        m1 == m2,
{
    lemma_trade_entry_shape_ok();
    lemma_text_item_shape_ok();
    lemma_tsnap_mid_shape_ok();
    lemma_tsnapshot_splits(s, m1);
    lemma_tsnapshot_splits(s, m2);
    let l1 = "{\"table\":\"trade\",\"action\":\"partial\",\"keys\":"@.len() as int;
    let ka1 = arr_text(text_item_shape(), text_items(m1.keys));
    let ka2 = arr_text(text_item_shape(), text_items(m2.keys));
    lemma_arr_unique(
        s,
        l1,
        l1 + ka1.len(),
        l1 + ka2.len(),
        text_item_shape(),
        text_items(m1.keys),
        text_items(m2.keys),
    );
    let mid1 = ser_seg(tsnap_mid_shape(), tsnap_mid_vals(m1));
    let mid2 = ser_seg(tsnap_mid_shape(), tsnap_mid_vals(m2));
    lemma_seg_unique(
        s,
        l1 + ka1.len(),
        l1 + ka1.len() + mid1.len(),
        l1 + ka2.len() + mid2.len(),
        tsnap_mid_shape(),
        tsnap_mid_vals(m1),
        tsnap_mid_vals(m2),
    );
    let p = l1 + ka1.len() + mid1.len();
    let da1 = arr_text(trade_entry_shape(), trade_items(m1.data));
    let da2 = arr_text(trade_entry_shape(), trade_items(m2.data));
    lemma_arr_unique(
        s,
        p,
        p + da1.len(),
        p + da2.len(),
        trade_entry_shape(),
        trade_items(m1.data),
        trade_items(m2.data),
    );
    assert(tsnap_mid_vals(m1)[0] == FieldValV::S(m1.types.timestamp));
    assert(tsnap_mid_vals(m2)[0] == FieldValV::S(m2.types.timestamp));
    assert(tsnap_mid_vals(m1)[1] == FieldValV::S(m1.types.symbol));
    assert(tsnap_mid_vals(m2)[1] == FieldValV::S(m2.types.symbol));
    assert(tsnap_mid_vals(m1)[2] == FieldValV::S(m1.types.side));
    assert(tsnap_mid_vals(m2)[2] == FieldValV::S(m2.types.side));
    assert(tsnap_mid_vals(m1)[3] == FieldValV::S(m1.types.size));
    assert(tsnap_mid_vals(m2)[3] == FieldValV::S(m2.types.size));
    assert(tsnap_mid_vals(m1)[4] == FieldValV::S(m1.types.price));
    assert(tsnap_mid_vals(m2)[4] == FieldValV::S(m2.types.price));
    assert(tsnap_mid_vals(m1)[5] == FieldValV::S(m1.types.tick_direction));
    assert(tsnap_mid_vals(m2)[5] == FieldValV::S(m2.types.tick_direction));
    assert(tsnap_mid_vals(m1)[6] == FieldValV::S(m1.types.trd_match_id));
    assert(tsnap_mid_vals(m2)[6] == FieldValV::S(m2.types.trd_match_id));
    assert(tsnap_mid_vals(m1)[7] == FieldValV::S(m1.types.gross_value));
    assert(tsnap_mid_vals(m2)[7] == FieldValV::S(m2.types.gross_value));
    assert(tsnap_mid_vals(m1)[8] == FieldValV::S(m1.types.home_notional));
    assert(tsnap_mid_vals(m2)[8] == FieldValV::S(m2.types.home_notional));
    assert(tsnap_mid_vals(m1)[9] == FieldValV::S(m1.types.foreign_notional));
    assert(tsnap_mid_vals(m2)[9] == FieldValV::S(m2.types.foreign_notional));
    assert(tsnap_mid_vals(m1)[10] == FieldValV::S(m1.foreign_keys.symbol));
    assert(tsnap_mid_vals(m2)[10] == FieldValV::S(m2.foreign_keys.symbol));
    assert(tsnap_mid_vals(m1)[11] == FieldValV::S(m1.foreign_keys.side));
    assert(tsnap_mid_vals(m2)[11] == FieldValV::S(m2.foreign_keys.side));
    assert(tsnap_mid_vals(m1)[12] == FieldValV::S(m1.attributes.timestamp));
    assert(tsnap_mid_vals(m2)[12] == FieldValV::S(m2.attributes.timestamp));
    assert(tsnap_mid_vals(m1)[13] == FieldValV::S(m1.attributes.symbol));
    assert(tsnap_mid_vals(m2)[13] == FieldValV::S(m2.attributes.symbol));
    assert(tsnap_mid_vals(m1)[14] == FieldValV::S(m1.filter.symbol));
    assert(tsnap_mid_vals(m2)[14] == FieldValV::S(m2.filter.symbol));
    assert forall|k: int| 0 <= k < m1.keys.len() implies m1.keys[k] == m2.keys[k] by {
        assert(text_items(m1.keys)[k] == seq![FieldValV::S(m1.keys[k])]);
        assert(text_items(m2.keys)[k] == seq![FieldValV::S(m2.keys[k])]);
        assert(seq![FieldValV::S(m1.keys[k])][0] == seq![FieldValV::S(m2.keys[k])][0]);
    }
    assert(m1.keys =~= m2.keys);
    assert forall|k: int| 0 <= k < m1.data.len() implies m1.data[k] == m2.data[k] by {
        assert(trade_items(m1.data)[k] == trade_entry_vals(m1.data[k]));
        assert(trade_items(m2.data)[k] == trade_entry_vals(m2.data[k]));
        let a = trade_entry_vals(m1.data[k]);
        let b = trade_entry_vals(m2.data[k]);
            assert(a[0] == FieldValV::S(m1.data[k].timestamp));
            assert(b[0] == FieldValV::S(m2.data[k].timestamp));
            assert(a[1] == FieldValV::S(m1.data[k].symbol));
            assert(b[1] == FieldValV::S(m2.data[k].symbol));
            assert(a[2] == FieldValV::S(m1.data[k].side));
            assert(b[2] == FieldValV::S(m2.data[k].side));
            assert(a[3] == FieldValV::D(m1.data[k].size));
            assert(b[3] == FieldValV::D(m2.data[k].size));
            assert(a[4] == FieldValV::D(m1.data[k].price));
            assert(b[4] == FieldValV::D(m2.data[k].price));
            assert(a[5] == FieldValV::S(m1.data[k].tick_direction));
            assert(b[5] == FieldValV::S(m2.data[k].tick_direction));
            assert(a[6] == FieldValV::S(m1.data[k].trd_match_id));
            assert(b[6] == FieldValV::S(m2.data[k].trd_match_id));
            assert(a[7] == FieldValV::D(m1.data[k].gross_value));
            assert(b[7] == FieldValV::D(m2.data[k].gross_value));
            assert(a[8] == FieldValV::D(m1.data[k].home_notional));
            assert(b[8] == FieldValV::D(m2.data[k].home_notional));
            assert(a[9] == FieldValV::D(m1.data[k].foreign_notional));
            assert(b[9] == FieldValV::D(m2.data[k].foreign_notional));
    }
    assert(m1.data =~= m2.data);
}

/// A payload carries at most one well-formed message: the wire format is
/// unambiguous, so classification and decoding can never confuse two
/// records.
pub proof fn lemma_wire_unambiguous(s: Seq<char>, mv1: BitmexMessageV, mv2: BitmexMessageV)
    requires
        msg_at(s, mv1),
        msg_at(s, mv2),
    ensures
        mv1 == mv2,
{
    lemma_classify_serialized(s, mv1);
    lemma_classify_serialized(s, mv2);
    assert(tag_of(mv1) == tag_of(mv2));
    match (mv1, mv2) {
        (BitmexMessageV::Info(m1), BitmexMessageV::Info(m2)) => {
            lemma_unambiguous_info(s, m1, m2);
        },
        (BitmexMessageV::Subscribe(m1), BitmexMessageV::Subscribe(m2)) => {
            lemma_unambiguous_subscribe(s, m1, m2);
        },
        (BitmexMessageV::Update(m1), BitmexMessageV::Update(m2)) => {
            lemma_unambiguous_update(s, m1, m2);
        },
        (BitmexMessageV::Delete(m1), BitmexMessageV::Delete(m2)) => {
            lemma_unambiguous_delete(s, m1, m2);
        },
        (BitmexMessageV::Insert(m1), BitmexMessageV::Insert(m2)) => {
            lemma_unambiguous_insert(s, m1, m2);
        },
        (BitmexMessageV::Trade(m1), BitmexMessageV::Trade(m2)) => {
            lemma_unambiguous_trade(s, m1, m2);
        },
        (BitmexMessageV::Snapshot(m1), BitmexMessageV::Snapshot(m2)) => {
            lemma_unambiguous_snapshot(s, m1, m2);
        },
        (BitmexMessageV::TradeSnapshot(m1), BitmexMessageV::TradeSnapshot(m2)) => {
            lemma_unambiguous_tradesnapshot(s, m1, m2);
        },
        _ => {
        },
    }
}

} // verus!
