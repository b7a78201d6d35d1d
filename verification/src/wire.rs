//! The wire format of each message category, and the classifier.
//!
//! Each category's body is given as a shape (literal keys alternating with
//! typed values) plus, for the tabular categories, an entry array. A
//! payload carries a message exactly when it is the serialization of a
//! well-formed record; the decoders in `decode` are proved exact against
//! these definitions.

use vstd::prelude::*;
use crate::model::{
    AttributesV, BitmexMessageV, CategoryTag, DeleteEntryV, DeleteMessageV, FilterV, ForeignKeysV,
    InfoMessageV, InsertEntryV, InsertMessageV, ParseError, RequestV, SnapshotMessageV,
    SubscribeMessageV, TradeAttributesV, TradeEntryV, TradeMessageV, TradeSnapshotMessageV,
    TradeTypesV, TypesV, UpdateEntryV, UpdateMessageV,
};
use crate::pieces::{
    aligned, arr_at, head_opens, seg_at, ser_items, ser_seg, shape_ok, FieldValV, ShapeTok,
};

verus! {

// --- shapes -------------------------------------------------------------

pub open spec fn info_shape() -> Seq<ShapeTok> {
    seq![
        ShapeTok::LitTok("{\"info\":"),
        ShapeTok::TextTok,
        ShapeTok::LitTok(",\"version\":"),
        ShapeTok::TextTok,
        ShapeTok::LitTok(",\"timestamp\":"),
        ShapeTok::TextTok,
        ShapeTok::LitTok(",\"docs\":"),
        ShapeTok::TextTok,
        ShapeTok::LitTok(",\"limit\":{\"remaining\":"),
        ShapeTok::NumTok,
        ShapeTok::LitTok("}}"),
    ]
}

pub open spec fn subscribe_shape() -> Seq<ShapeTok> {
    seq![
        ShapeTok::LitTok("{\"success\":"),
        ShapeTok::TruthTok,
        ShapeTok::LitTok(",\"subscribe\":"),
        ShapeTok::TextTok,
        ShapeTok::LitTok(",\"request\":{\"op\":"),
        ShapeTok::TextTok,
        ShapeTok::LitTok(",\"args\":"),
    ]
}

/// A quoted string as the sole token: the item shape of a string array.
pub open spec fn text_item_shape() -> Seq<ShapeTok> {
    seq![ShapeTok::TextTok]
}

pub open spec fn upd_entry_shape() -> Seq<ShapeTok> {
    seq![
        ShapeTok::LitTok("{\"symbol\":"),
        ShapeTok::TextTok,
        ShapeTok::LitTok(",\"id\":"),
        ShapeTok::NumTok,
        ShapeTok::LitTok(",\"side\":"),
        ShapeTok::TextTok,
        ShapeTok::LitTok(",\"size\":"),
        ShapeTok::NumTok,
        ShapeTok::LitTok("}"),
    ]
}

pub open spec fn del_entry_shape() -> Seq<ShapeTok> {
    seq![
        ShapeTok::LitTok("{\"symbol\":"),
        ShapeTok::TextTok,
        ShapeTok::LitTok(",\"id\":"),
        ShapeTok::NumTok,
        ShapeTok::LitTok(",\"side\":"),
        ShapeTok::TextTok,
        ShapeTok::LitTok("}"),
    ]
}

pub open spec fn ins_entry_shape() -> Seq<ShapeTok> {
    seq![
        ShapeTok::LitTok("{\"symbol\":"),
        ShapeTok::TextTok,
        ShapeTok::LitTok(",\"id\":"),
        ShapeTok::NumTok,
        ShapeTok::LitTok(",\"side\":"),
        ShapeTok::TextTok,
        ShapeTok::LitTok(",\"size\":"),
        ShapeTok::NumTok,
        ShapeTok::LitTok(",\"price\":"),
        ShapeTok::QuantTok,
        ShapeTok::LitTok("}"),
    ]
}

pub open spec fn trade_entry_shape() -> Seq<ShapeTok> {
    seq![
        ShapeTok::LitTok("{\"timestamp\":"),
        ShapeTok::TextTok,
        ShapeTok::LitTok(",\"symbol\":"),
        ShapeTok::TextTok,
        ShapeTok::LitTok(",\"side\":"),
        ShapeTok::TextTok,
        ShapeTok::LitTok(",\"size\":"),
        ShapeTok::QuantTok,
        ShapeTok::LitTok(",\"price\":"),
        ShapeTok::QuantTok,
        ShapeTok::LitTok(",\"tickDirection\":"),
        ShapeTok::TextTok,
        ShapeTok::LitTok(",\"trdMatchID\":"),
        ShapeTok::TextTok,
        ShapeTok::LitTok(",\"grossValue\":"),
        ShapeTok::QuantTok,
        ShapeTok::LitTok(",\"homeNotional\":"),
        ShapeTok::QuantTok,
        ShapeTok::LitTok(",\"foreignNotional\":"),
        ShapeTok::QuantTok,
        ShapeTok::LitTok("}"),
    ]
}

/// The schema block of a book snapshot, from `types` through `data`.
pub open spec fn snap_mid_shape() -> Seq<ShapeTok> {
    seq![
        ShapeTok::LitTok(",\"types\":{\"symbol\":"),
        ShapeTok::TextTok,
        ShapeTok::LitTok(",\"id\":"),
        ShapeTok::TextTok,
        ShapeTok::LitTok(",\"side\":"),
        ShapeTok::TextTok,
        ShapeTok::LitTok(",\"size\":"),
        ShapeTok::TextTok,
        ShapeTok::LitTok(",\"price\":"),
        ShapeTok::TextTok,
        ShapeTok::LitTok("},\"foreignKeys\":{\"symbol\":"),
        ShapeTok::TextTok,
        ShapeTok::LitTok(",\"side\":"),
        ShapeTok::TextTok,
        ShapeTok::LitTok("},\"attributes\":{\"symbol\":"),
        ShapeTok::TextTok,
        ShapeTok::LitTok(",\"id\":"),
        ShapeTok::TextTok,
        ShapeTok::LitTok("},\"filter\":{\"symbol\":"),
        ShapeTok::TextTok,
        ShapeTok::LitTok("},\"data\":"),
    ]
}

/// The schema block of a trade snapshot, from `types` through `data`.
pub open spec fn tsnap_mid_shape() -> Seq<ShapeTok> {
    seq![
        ShapeTok::LitTok(",\"types\":{\"timestamp\":"),
        ShapeTok::TextTok,
        ShapeTok::LitTok(",\"symbol\":"),
        ShapeTok::TextTok,
        ShapeTok::LitTok(",\"side\":"),
        ShapeTok::TextTok,
        ShapeTok::LitTok(",\"size\":"),
        ShapeTok::TextTok,
        ShapeTok::LitTok(",\"price\":"),
        ShapeTok::TextTok,
        ShapeTok::LitTok(",\"tickDirection\":"),
        ShapeTok::TextTok,
        ShapeTok::LitTok(",\"trdMatchID\":"),
        ShapeTok::TextTok,
        ShapeTok::LitTok(",\"grossValue\":"),
        ShapeTok::TextTok,
        ShapeTok::LitTok(",\"homeNotional\":"),
        ShapeTok::TextTok,
        ShapeTok::LitTok(",\"foreignNotional\":"),
        ShapeTok::TextTok,
        ShapeTok::LitTok("},\"foreignKeys\":{\"symbol\":"),
        ShapeTok::TextTok,
        ShapeTok::LitTok(",\"side\":"),
        ShapeTok::TextTok,
        ShapeTok::LitTok("},\"attributes\":{\"timestamp\":"),
        ShapeTok::TextTok,
        ShapeTok::LitTok(",\"symbol\":"),
        ShapeTok::TextTok,
        ShapeTok::LitTok("},\"filter\":{\"symbol\":"),
        ShapeTok::TextTok,
        ShapeTok::LitTok("},\"data\":"),
    ]
}

// --- value sequences ----------------------------------------------------

pub open spec fn info_vals(m: InfoMessageV) -> Seq<FieldValV> {
    seq![
        FieldValV::S(m.info),
        FieldValV::S(m.version),
        FieldValV::S(m.timestamp),
        FieldValV::S(m.docs),
        FieldValV::N(m.limit.remaining),
    ]
}

pub open spec fn subscribe_vals(m: SubscribeMessageV) -> Seq<FieldValV> {
    seq![FieldValV::B(m.success), FieldValV::S(m.subscribe), FieldValV::S(m.request.op)]
}

pub open spec fn upd_entry_vals(e: UpdateEntryV) -> Seq<FieldValV> {
    seq![FieldValV::S(e.symbol), FieldValV::N(e.id), FieldValV::S(e.side), FieldValV::N(e.size)]
}

pub open spec fn del_entry_vals(e: DeleteEntryV) -> Seq<FieldValV> {
    seq![FieldValV::S(e.symbol), FieldValV::N(e.id), FieldValV::S(e.side)]
}

pub open spec fn ins_entry_vals(e: InsertEntryV) -> Seq<FieldValV> {
    seq![
        FieldValV::S(e.symbol),
        FieldValV::N(e.id),
        FieldValV::S(e.side),
        FieldValV::N(e.size),
        FieldValV::D(e.price),
    ]
}

pub open spec fn trade_entry_vals(e: TradeEntryV) -> Seq<FieldValV> {
    seq![
        FieldValV::S(e.timestamp),
        FieldValV::S(e.symbol),
        FieldValV::S(e.side),
        FieldValV::D(e.size),
        FieldValV::D(e.price),
        FieldValV::S(e.tick_direction),
        FieldValV::S(e.trd_match_id),
        FieldValV::D(e.gross_value),
        FieldValV::D(e.home_notional),
        FieldValV::D(e.foreign_notional),
    ]
}

pub open spec fn snap_mid_vals(m: SnapshotMessageV) -> Seq<FieldValV> {
    seq![
        FieldValV::S(m.types.symbol),
        FieldValV::S(m.types.id),
        FieldValV::S(m.types.side),
        FieldValV::S(m.types.size),
        FieldValV::S(m.types.price),
        FieldValV::S(m.foreign_keys.symbol),
        FieldValV::S(m.foreign_keys.side),
        FieldValV::S(m.attributes.symbol),
        FieldValV::S(m.attributes.id),
        FieldValV::S(m.filter.symbol),
    ]
}

pub open spec fn tsnap_mid_vals(m: TradeSnapshotMessageV) -> Seq<FieldValV> {
    seq![
        FieldValV::S(m.types.timestamp),
        FieldValV::S(m.types.symbol),
        FieldValV::S(m.types.side),
        FieldValV::S(m.types.size),
        FieldValV::S(m.types.price),
        FieldValV::S(m.types.tick_direction),
        FieldValV::S(m.types.trd_match_id),
        FieldValV::S(m.types.gross_value),
        FieldValV::S(m.types.home_notional),
        FieldValV::S(m.types.foreign_notional),
        FieldValV::S(m.foreign_keys.symbol),
        FieldValV::S(m.foreign_keys.side),
        FieldValV::S(m.attributes.timestamp),
        FieldValV::S(m.attributes.symbol),
        FieldValV::S(m.filter.symbol),
    ]
}

/// One string-array item, as the item shape's value list.
pub open spec fn text_items(xs: Seq<Seq<char>>) -> Seq<Seq<FieldValV>> {
    Seq::new(xs.len(), |k: int| seq![FieldValV::S(xs[k])])
}

pub open spec fn upd_items(data: Seq<UpdateEntryV>) -> Seq<Seq<FieldValV>> {
    Seq::new(data.len(), |k: int| upd_entry_vals(data[k]))
}

pub open spec fn del_items(data: Seq<DeleteEntryV>) -> Seq<Seq<FieldValV>> {
    Seq::new(data.len(), |k: int| del_entry_vals(data[k]))
}

pub open spec fn ins_items(data: Seq<InsertEntryV>) -> Seq<Seq<FieldValV>> {
    Seq::new(data.len(), |k: int| ins_entry_vals(data[k]))
}

pub open spec fn trade_items(data: Seq<TradeEntryV>) -> Seq<Seq<FieldValV>> {
    Seq::new(data.len(), |k: int| trade_entry_vals(data[k]))
}

// --- message texts and well-formedness ----------------------------------

pub open spec fn arr_text(shape: Seq<ShapeTok>, items: Seq<Seq<FieldValV>>) -> Seq<char> {
    seq!['['] + ser_items(shape, items) + seq![']']
}

pub open spec fn items_ok(shape: Seq<ShapeTok>, items: Seq<Seq<FieldValV>>) -> bool {
    forall|k: int| 0 <= k < items.len() ==> aligned(shape, #[trigger] items[k])
}

pub open spec fn wf_info(m: InfoMessageV) -> bool {
    &&& aligned(info_shape(), info_vals(m))
    &&& i32::MIN <= m.limit.remaining <= i32::MAX
}

pub open spec fn ser_info(m: InfoMessageV) -> Seq<char> {
    ser_seg(info_shape(), info_vals(m))
}

pub open spec fn info_at(s: Seq<char>, m: InfoMessageV) -> bool {
    &&& wf_info(m)
    &&& s == ser_info(m)
}

pub open spec fn wf_subscribe(m: SubscribeMessageV) -> bool {
    &&& aligned(subscribe_shape(), subscribe_vals(m))
    &&& items_ok(text_item_shape(), text_items(m.request.args))
}

pub open spec fn ser_subscribe(m: SubscribeMessageV) -> Seq<char> {
    ser_seg(subscribe_shape(), subscribe_vals(m)) + (arr_text(
        text_item_shape(),
        text_items(m.request.args),
    ) + "}}"@)
}

pub open spec fn subscribe_at(s: Seq<char>, m: SubscribeMessageV) -> bool {
    &&& wf_subscribe(m)
    &&& s == ser_subscribe(m)
}

pub open spec fn wf_update(m: UpdateMessageV) -> bool {
    &&& m.table == "orderBookL2"@
    &&& m.action == "update"@
    &&& items_ok(upd_entry_shape(), upd_items(m.data))
}

pub open spec fn ser_update(m: UpdateMessageV) -> Seq<char> {
    "{\"table\":\"orderBookL2\",\"action\":\"update\",\"data\":"@ + (arr_text(
        upd_entry_shape(),
        upd_items(m.data),
    ) + "}"@)
}

pub open spec fn update_at(s: Seq<char>, m: UpdateMessageV) -> bool {
    &&& wf_update(m)
    &&& s == ser_update(m)
}

pub open spec fn wf_delete(m: DeleteMessageV) -> bool {
    &&& m.table == "orderBookL2"@
    &&& m.action == "delete"@
    &&& items_ok(del_entry_shape(), del_items(m.data))
}

pub open spec fn ser_delete(m: DeleteMessageV) -> Seq<char> {
    "{\"table\":\"orderBookL2\",\"action\":\"delete\",\"data\":"@ + (arr_text(
        del_entry_shape(),
        del_items(m.data),
    ) + "}"@)
}

pub open spec fn delete_at(s: Seq<char>, m: DeleteMessageV) -> bool {
    &&& wf_delete(m)
    &&& s == ser_delete(m)
}

pub open spec fn wf_insert(m: InsertMessageV) -> bool {
    &&& m.table == "orderBookL2"@
    &&& m.action == "insert"@
    &&& items_ok(ins_entry_shape(), ins_items(m.data))
}

pub open spec fn ser_insert(m: InsertMessageV) -> Seq<char> {
    "{\"table\":\"orderBookL2\",\"action\":\"insert\",\"data\":"@ + (arr_text(
        ins_entry_shape(),
        ins_items(m.data),
    ) + "}"@)
}

pub open spec fn insert_at(s: Seq<char>, m: InsertMessageV) -> bool {
    &&& wf_insert(m)
    &&& s == ser_insert(m)
}

pub open spec fn wf_trade(m: TradeMessageV) -> bool {
    &&& m.table == "trade"@
    &&& m.action == "insert"@
    &&& items_ok(trade_entry_shape(), trade_items(m.data))
}

pub open spec fn ser_trade(m: TradeMessageV) -> Seq<char> {
    "{\"table\":\"trade\",\"action\":\"insert\",\"data\":"@ + (arr_text(
        trade_entry_shape(),
        trade_items(m.data),
    ) + "}"@)
}

pub open spec fn trade_at(s: Seq<char>, m: TradeMessageV) -> bool {
    &&& wf_trade(m)
    &&& s == ser_trade(m)
}

pub open spec fn wf_snapshot(m: SnapshotMessageV) -> bool {
    &&& m.table == "orderBookL2"@
    &&& m.action == "partial"@
    &&& items_ok(text_item_shape(), text_items(m.keys))
    &&& aligned(snap_mid_shape(), snap_mid_vals(m))
    &&& items_ok(ins_entry_shape(), ins_items(m.data))
}

pub open spec fn ser_snapshot(m: SnapshotMessageV) -> Seq<char> {
    "{\"table\":\"orderBookL2\",\"action\":\"partial\",\"keys\":"@ + (arr_text(
        text_item_shape(),
        text_items(m.keys),
    ) + (ser_seg(snap_mid_shape(), snap_mid_vals(m)) + (arr_text(
        ins_entry_shape(),
        ins_items(m.data),
    ) + "}"@)))
}

pub open spec fn snapshot_at(s: Seq<char>, m: SnapshotMessageV) -> bool {
    &&& wf_snapshot(m)
    &&& s == ser_snapshot(m)
}

pub open spec fn wf_tsnapshot(m: TradeSnapshotMessageV) -> bool {
    &&& m.table == "trade"@
    &&& m.action == "partial"@
    &&& items_ok(text_item_shape(), text_items(m.keys))
    &&& aligned(tsnap_mid_shape(), tsnap_mid_vals(m))
    &&& items_ok(trade_entry_shape(), trade_items(m.data))
}

pub open spec fn ser_tsnapshot(m: TradeSnapshotMessageV) -> Seq<char> {
    "{\"table\":\"trade\",\"action\":\"partial\",\"keys\":"@ + (arr_text(
        text_item_shape(),
        text_items(m.keys),
    ) + (ser_seg(tsnap_mid_shape(), tsnap_mid_vals(m)) + (arr_text(
        trade_entry_shape(),
        trade_items(m.data),
    ) + "}"@)))
}

pub open spec fn tsnapshot_at(s: Seq<char>, m: TradeSnapshotMessageV) -> bool {
    &&& wf_tsnapshot(m)
    &&& s == ser_tsnapshot(m)
}

/// A payload carries the given message.
pub open spec fn msg_at(s: Seq<char>, mv: BitmexMessageV) -> bool {
    match mv {
        BitmexMessageV::Update(m) => update_at(s, m),
        BitmexMessageV::Delete(m) => delete_at(s, m),
        BitmexMessageV::Insert(m) => insert_at(s, m),
        BitmexMessageV::Snapshot(m) => snapshot_at(s, m),
        BitmexMessageV::TradeSnapshot(m) => tsnapshot_at(s, m),
        BitmexMessageV::Trade(m) => trade_at(s, m),
        BitmexMessageV::Info(m) => info_at(s, m),
        BitmexMessageV::Subscribe(m) => subscribe_at(s, m),
    }
}

pub open spec fn tag_of(mv: BitmexMessageV) -> CategoryTag {
    match mv {
        BitmexMessageV::Update(_) => CategoryTag::Update,
        BitmexMessageV::Delete(_) => CategoryTag::Delete,
        BitmexMessageV::Insert(_) => CategoryTag::Insert,
        BitmexMessageV::Snapshot(_) => CategoryTag::Snapshot,
        BitmexMessageV::TradeSnapshot(_) => CategoryTag::TradeSnapshot,
        BitmexMessageV::Trade(_) => CategoryTag::Trade,
        BitmexMessageV::Info(_) => CategoryTag::Info,
        BitmexMessageV::Subscribe(_) => CategoryTag::Subscribe,
    }
}

// --- the classifier -----------------------------------------------------

/// What the classifier decides, by peeking at fixed character windows.
/// It fails closed: a window that runs past the payload's end is a
/// truncation error, and an unrecognized window is an error naming the
/// stage that failed.
pub open spec fn spec_classify(s: Seq<char>) -> Result<CategoryTag, ParseError> {
    if s.len() < 5 {
        Err(ParseError::Truncated)
    } else if s[2] == 'i' && s[3] == 'n' && s[4] == 'f' {
        Ok(CategoryTag::Info)
    } else if s[2] == 's' && s[3] == 'u' && s[4] == 'c' {
        Ok(CategoryTag::Subscribe)
    } else if s[2] == 't' && s[3] == 'a' && s[4] == 'b' {
        if s.len() < 13 {
            Err(ParseError::Truncated)
        } else if s[10] == 't' && s[11] == 'r' && s[12] == 'a' {
            if s.len() < 30 {
                Err(ParseError::Truncated)
            } else if s[27] == 'p' && s[28] == 'a' && s[29] == 'r' {
                Ok(CategoryTag::TradeSnapshot)
            } else if s[27] == 'i' && s[28] == 'n' && s[29] == 's' {
                Ok(CategoryTag::Trade)
            } else {
                Err(ParseError::InvalidAction)
            }
        } else if s[10] == 'o' && s[11] == 'r' && s[12] == 'd' {
            if s.len() < 36 {
                Err(ParseError::Truncated)
            } else if s[33] == 'p' && s[34] == 'a' && s[35] == 'r' {
                Ok(CategoryTag::Snapshot)
            } else if s[33] == 'u' && s[34] == 'p' && s[35] == 'd' {
                Ok(CategoryTag::Update)
            } else if s[33] == 'i' && s[34] == 'n' && s[35] == 's' {
                Ok(CategoryTag::Insert)
            } else if s[33] == 'd' && s[34] == 'e' && s[35] == 'l' {
                Ok(CategoryTag::Delete)
            } else {
                Err(ParseError::InvalidAction)
            }
        } else {
            Err(ParseError::InvalidTable)
        }
    } else {
        Err(ParseError::Invalid)
    }
}

} // verus!
