//! The message model: one typed record per message category of the feed,
//! plus the error taxonomy and the classifier's category tags.
//!
//! Each record type has a spec-level view (`...V`) over which the wire
//! contracts are stated: strings become `Seq<char>`, integers become `int`.

use vstd::prelude::*;

verus! {

/// A decimal-precision quantity, kept exactly as it stands on the wire:
/// an optional sign, an integral part, and `scale` fractional digits whose
/// value is `frac`. The value represented is
/// `(-1)^neg * (int_part + frac / 10^scale)`.
#[derive(Debug, Clone, Copy, PartialEq, Eq, Structural)]
pub struct Decimal {
    pub neg: bool,
    pub int_part: u64,
    pub frac: u64,
    pub scale: u32,
}

impl Decimal {
    /// The decimal with integral value `n`.
    pub fn integral(n: u64) -> (r: Decimal)
        ensures
            r == (Decimal { neg: false, int_part: n, frac: 0, scale: 0 }),
    {
        Decimal { neg: false, int_part: n, frac: 0, scale: 0 }
    }

    /// The decimal `int_part.frac` with `scale` fractional digits.
    pub fn with_fraction(int_part: u64, frac: u64, scale: u32) -> (r: Decimal)
        ensures
            r == (Decimal { neg: false, int_part, frac, scale }),
    {
        Decimal { neg: false, int_part, frac, scale }
    }
}

/// One changed order-book level: the identified level's new size.
#[derive(Debug)]
pub struct UpdateEntry {
    pub symbol: String,
    pub id: i64,
    pub side: String,
    pub size: i64,
}

pub struct UpdateEntryV {
    pub symbol: Seq<char>,
    pub id: int,
    pub side: Seq<char>,
    pub size: int,
}

impl DeepView for UpdateEntry {
    type V = UpdateEntryV;

    open spec fn deep_view(&self) -> UpdateEntryV {
        UpdateEntryV { symbol: self.symbol@, id: self.id as int, side: self.side@, size: self.size as int }
    }
}

#[derive(Debug)]
pub struct UpdateMessage {
    pub table: String,
    pub action: String,
    pub data: Vec<UpdateEntry>,
}

pub struct UpdateMessageV {
    pub table: Seq<char>,
    pub action: Seq<char>,
    pub data: Seq<UpdateEntryV>,
}

impl DeepView for UpdateMessage {
    type V = UpdateMessageV;

    open spec fn deep_view(&self) -> UpdateMessageV {
        UpdateMessageV { table: self.table@, action: self.action@, data: self.data.deep_view() }
    }
}

/// One removed order-book level.
#[derive(Debug)]
pub struct DeleteEntry {
    pub symbol: String,
    pub id: i64,
    pub side: String,
}

pub struct DeleteEntryV {
    pub symbol: Seq<char>,
    pub id: int,
    pub side: Seq<char>,
}

impl DeepView for DeleteEntry {
    type V = DeleteEntryV;

    open spec fn deep_view(&self) -> DeleteEntryV {
        DeleteEntryV { symbol: self.symbol@, id: self.id as int, side: self.side@ }
    }
}

#[derive(Debug)]
pub struct DeleteMessage {
    pub table: String,
    pub action: String,
    pub data: Vec<DeleteEntry>,
}

pub struct DeleteMessageV {
    pub table: Seq<char>,
    pub action: Seq<char>,
    pub data: Seq<DeleteEntryV>,
}

impl DeepView for DeleteMessage {
    type V = DeleteMessageV;

    open spec fn deep_view(&self) -> DeleteMessageV {
        DeleteMessageV { table: self.table@, action: self.action@, data: self.data.deep_view() }
    }
}

/// One new order-book level, with its full shape.
#[derive(Debug)]
pub struct InsertEntry {
    pub symbol: String,
    pub id: i64,
    pub side: String,
    pub size: i64,
    pub price: Decimal,
}

pub struct InsertEntryV {
    pub symbol: Seq<char>,
    pub id: int,
    pub side: Seq<char>,
    pub size: int,
    pub price: Decimal,
}

impl DeepView for InsertEntry {
    type V = InsertEntryV;

    open spec fn deep_view(&self) -> InsertEntryV {
        InsertEntryV {
            symbol: self.symbol@,
            id: self.id as int,
            side: self.side@,
            size: self.size as int,
            price: self.price,
        }
    }
}

#[derive(Debug)]
pub struct InsertMessage {
    pub table: String,
    pub action: String,
    pub data: Vec<InsertEntry>,
}

pub struct InsertMessageV {
    pub table: Seq<char>,
    pub action: Seq<char>,
    pub data: Seq<InsertEntryV>,
}

impl DeepView for InsertMessage {
    type V = InsertMessageV;

    open spec fn deep_view(&self) -> InsertMessageV {
        InsertMessageV { table: self.table@, action: self.action@, data: self.data.deep_view() }
    }
}

/// Per-field type names from a book snapshot's schema block.
#[derive(Debug)]
pub struct Types {
    pub symbol: String,
    pub id: String,
    pub side: String,
    pub size: String,
    pub price: String,
}

pub struct TypesV {
    pub symbol: Seq<char>,
    pub id: Seq<char>,
    pub side: Seq<char>,
    pub size: Seq<char>,
    pub price: Seq<char>,
}

impl DeepView for Types {
    type V = TypesV;

    open spec fn deep_view(&self) -> TypesV {
        TypesV {
            symbol: self.symbol@,
            id: self.id@,
            side: self.side@,
            size: self.size@,
            price: self.price@,
        }
    }
}

#[derive(Debug)]
pub struct ForeignKeys {
    pub symbol: String,
    pub side: String,
}

pub struct ForeignKeysV {
    pub symbol: Seq<char>,
    pub side: Seq<char>,
}

impl DeepView for ForeignKeys {
    type V = ForeignKeysV;

    open spec fn deep_view(&self) -> ForeignKeysV {
        ForeignKeysV { symbol: self.symbol@, side: self.side@ }
    }
}

#[derive(Debug)]
pub struct Attributes {
    pub symbol: String,
    pub id: String,
}

pub struct AttributesV {
    pub symbol: Seq<char>,
    pub id: Seq<char>,
}

impl DeepView for Attributes {
    type V = AttributesV;

    open spec fn deep_view(&self) -> AttributesV {
        AttributesV { symbol: self.symbol@, id: self.id@ }
    }
}

#[derive(Debug)]
pub struct Filter {
    pub symbol: String,
}

pub struct FilterV {
    pub symbol: Seq<char>,
}

impl DeepView for Filter {
    type V = FilterV;

    open spec fn deep_view(&self) -> FilterV {
        FilterV { symbol: self.symbol@ }
    }
}

/// Full initial order-book state for a channel: schema plus levels.
#[derive(Debug)]
pub struct SnapshotMessage {
    pub table: String,
    pub action: String,
    pub keys: Vec<String>,
    pub types: Types,
    pub foreign_keys: ForeignKeys,
    pub attributes: Attributes,
    pub filter: Filter,
    pub data: Vec<InsertEntry>,
}

pub struct SnapshotMessageV {
    pub table: Seq<char>,
    pub action: Seq<char>,
    pub keys: Seq<Seq<char>>,
    pub types: TypesV,
    pub foreign_keys: ForeignKeysV,
    pub attributes: AttributesV,
    pub filter: FilterV,
    pub data: Seq<InsertEntryV>,
}

impl DeepView for SnapshotMessage {
    type V = SnapshotMessageV;

    open spec fn deep_view(&self) -> SnapshotMessageV {
        SnapshotMessageV {
            table: self.table@,
            action: self.action@,
            keys: self.keys.deep_view(),
            types: self.types.deep_view(),
            foreign_keys: self.foreign_keys.deep_view(),
            attributes: self.attributes.deep_view(),
            filter: self.filter.deep_view(),
            data: self.data.deep_view(),
        }
    }
}

#[derive(Debug)]
pub struct Limit {
    pub remaining: i32,
}

pub struct LimitV {
    pub remaining: int,
}

impl DeepView for Limit {
    type V = LimitV;

    open spec fn deep_view(&self) -> LimitV {
        LimitV { remaining: self.remaining as int }
    }
}

/// The greeting sent once when the connection is established.
#[derive(Debug)]
pub struct InfoMessage {
    pub info: String,
    pub version: String,
    pub timestamp: String,
    pub docs: String,
    pub limit: Limit,
}

pub struct InfoMessageV {
    pub info: Seq<char>,
    pub version: Seq<char>,
    pub timestamp: Seq<char>,
    pub docs: Seq<char>,
    pub limit: LimitV,
}

impl DeepView for InfoMessage {
    type V = InfoMessageV;

    open spec fn deep_view(&self) -> InfoMessageV {
        InfoMessageV {
            info: self.info@,
            version: self.version@,
            timestamp: self.timestamp@,
            docs: self.docs@,
            limit: self.limit.deep_view(),
        }
    }
}

#[derive(Debug)]
pub struct Request {
    pub op: String,
    pub args: Vec<String>,
}

pub struct RequestV {
    pub op: Seq<char>,
    pub args: Seq<Seq<char>>,
}

impl DeepView for Request {
    type V = RequestV;

    open spec fn deep_view(&self) -> RequestV {
        RequestV { op: self.op@, args: self.args.deep_view() }
    }
}

/// Acknowledgement of a subscription request, echoing the request.
#[derive(Debug)]
pub struct SubscribeMessage {
    pub success: bool,
    pub subscribe: String,
    pub request: Request,
}

pub struct SubscribeMessageV {
    pub success: bool,
    pub subscribe: Seq<char>,
    pub request: RequestV,
}

impl DeepView for SubscribeMessage {
    type V = SubscribeMessageV;

    open spec fn deep_view(&self) -> SubscribeMessageV {
        SubscribeMessageV {
            success: self.success,
            subscribe: self.subscribe@,
            request: self.request.deep_view(),
        }
    }
}

/// Per-field type names from a trade snapshot's schema block.
#[derive(Debug)]
pub struct TradeTypes {
    pub timestamp: String,
    pub symbol: String,
    pub side: String,
    pub size: String,
    pub price: String,
    pub tick_direction: String,
    pub trd_match_id: String,
    pub gross_value: String,
    pub home_notional: String,
    pub foreign_notional: String,
}

pub struct TradeTypesV {
    pub timestamp: Seq<char>,
    pub symbol: Seq<char>,
    pub side: Seq<char>,
    pub size: Seq<char>,
    pub price: Seq<char>,
    pub tick_direction: Seq<char>,
    pub trd_match_id: Seq<char>,
    pub gross_value: Seq<char>,
    pub home_notional: Seq<char>,
    pub foreign_notional: Seq<char>,
}

impl DeepView for TradeTypes {
    type V = TradeTypesV;

    open spec fn deep_view(&self) -> TradeTypesV {
        TradeTypesV {
            timestamp: self.timestamp@,
            symbol: self.symbol@,
            side: self.side@,
            size: self.size@,
            price: self.price@,
            tick_direction: self.tick_direction@,
            trd_match_id: self.trd_match_id@,
            gross_value: self.gross_value@,
            home_notional: self.home_notional@,
            foreign_notional: self.foreign_notional@,
        }
    }
}

#[derive(Debug)]
pub struct TradeAttributes {
    pub timestamp: String,
    pub symbol: String,
}

pub struct TradeAttributesV {
    pub timestamp: Seq<char>,
    pub symbol: Seq<char>,
}

impl DeepView for TradeAttributes {
    type V = TradeAttributesV;

    open spec fn deep_view(&self) -> TradeAttributesV {
        TradeAttributesV { timestamp: self.timestamp@, symbol: self.symbol@ }
    }
}

/// One trade execution.
#[derive(Debug)]
pub struct TradeEntry {
    pub timestamp: String,
    pub symbol: String,
    pub side: String,
    pub size: Decimal,
    pub price: Decimal,
    pub tick_direction: String,
    pub trd_match_id: String,
    pub gross_value: Decimal,
    pub home_notional: Decimal,
    pub foreign_notional: Decimal,
}

pub struct TradeEntryV {
    pub timestamp: Seq<char>,
    pub symbol: Seq<char>,
    pub side: Seq<char>,
    pub size: Decimal,
    pub price: Decimal,
    pub tick_direction: Seq<char>,
    pub trd_match_id: Seq<char>,
    pub gross_value: Decimal,
    pub home_notional: Decimal,
    pub foreign_notional: Decimal,
}

impl DeepView for TradeEntry {
    type V = TradeEntryV;

    open spec fn deep_view(&self) -> TradeEntryV {
        TradeEntryV {
            timestamp: self.timestamp@,
            symbol: self.symbol@,
            side: self.side@,
            size: self.size,
            price: self.price,
            tick_direction: self.tick_direction@,
            trd_match_id: self.trd_match_id@,
            gross_value: self.gross_value,
            home_notional: self.home_notional,
            foreign_notional: self.foreign_notional,
        }
    }
}

/// Schema plus the most recent trades for a channel.
#[derive(Debug)]
pub struct TradeSnapshotMessage {
    pub table: String,
    pub action: String,
    pub keys: Vec<String>,
    pub types: TradeTypes,
    pub foreign_keys: ForeignKeys,
    pub attributes: TradeAttributes,
    pub filter: Filter,
    pub data: Vec<TradeEntry>,
}

pub struct TradeSnapshotMessageV {
    pub table: Seq<char>,
    pub action: Seq<char>,
    pub keys: Seq<Seq<char>>,
    pub types: TradeTypesV,
    pub foreign_keys: ForeignKeysV,
    pub attributes: TradeAttributesV,
    pub filter: FilterV,
    pub data: Seq<TradeEntryV>,
}

impl DeepView for TradeSnapshotMessage {
    type V = TradeSnapshotMessageV;

    open spec fn deep_view(&self) -> TradeSnapshotMessageV {
        TradeSnapshotMessageV {
            table: self.table@,
            action: self.action@,
            keys: self.keys.deep_view(),
            types: self.types.deep_view(),
            foreign_keys: self.foreign_keys.deep_view(),
            attributes: self.attributes.deep_view(),
            filter: self.filter.deep_view(),
            data: self.data.deep_view(),
        }
    }
}

#[derive(Debug)]
pub struct TradeMessage {
    pub table: String,
    pub action: String,
    pub data: Vec<TradeEntry>,
}

pub struct TradeMessageV {
    pub table: Seq<char>,
    pub action: Seq<char>,
    pub data: Seq<TradeEntryV>,
}

impl DeepView for TradeMessage {
    type V = TradeMessageV;

    open spec fn deep_view(&self) -> TradeMessageV {
        TradeMessageV { table: self.table@, action: self.action@, data: self.data.deep_view() }
    }
}

/// One decoded message of any category.
#[derive(Debug)]
pub enum BitmexMessage {
    Update(UpdateMessage),
    Delete(DeleteMessage),
    Insert(InsertMessage),
    Snapshot(SnapshotMessage),
    TradeSnapshot(TradeSnapshotMessage),
    Trade(TradeMessage),
    Info(InfoMessage),
    Subscribe(SubscribeMessage),
}

pub enum BitmexMessageV {
    Update(UpdateMessageV),
    Delete(DeleteMessageV),
    Insert(InsertMessageV),
    Snapshot(SnapshotMessageV),
    TradeSnapshot(TradeSnapshotMessageV),
    Trade(TradeMessageV),
    Info(InfoMessageV),
    Subscribe(SubscribeMessageV),
}

impl DeepView for BitmexMessage {
    type V = BitmexMessageV;

    open spec fn deep_view(&self) -> BitmexMessageV {
        match self {
            BitmexMessage::Update(m) => BitmexMessageV::Update(m.deep_view()),
            BitmexMessage::Delete(m) => BitmexMessageV::Delete(m.deep_view()),
            BitmexMessage::Insert(m) => BitmexMessageV::Insert(m.deep_view()),
            BitmexMessage::Snapshot(m) => BitmexMessageV::Snapshot(m.deep_view()),
            BitmexMessage::TradeSnapshot(m) => BitmexMessageV::TradeSnapshot(m.deep_view()),
            BitmexMessage::Trade(m) => BitmexMessageV::Trade(m.deep_view()),
            BitmexMessage::Info(m) => BitmexMessageV::Info(m.deep_view()),
            BitmexMessage::Subscribe(m) => BitmexMessageV::Subscribe(m.deep_view()),
        }
    }
}

/// The category a payload is classified into before it is decoded.
#[derive(Debug, Clone, Copy, PartialEq, Eq, Structural)]
pub enum CategoryTag {
    Info,
    Subscribe,
    Snapshot,
    Update,
    Insert,
    Delete,
    TradeSnapshot,
    Trade,
}

/// Every way a payload can be refused. All variants are recoverable:
/// the caller logs, discards the message and goes on with the feed.
#[derive(Debug, Clone, Copy, PartialEq, Eq, Structural)]
pub enum ParseError {
    /// The top-level shape matches none of the recognized prefixes.
    Invalid,
    /// A tabular payload names an unrecognized table.
    InvalidTable,
    /// A recognized table carries an unrecognized action, or one that is
    /// not valid for that table.
    InvalidAction,
    /// The payload ends before a classification peek window.
    Truncated,
    /// The payload was classified, but its body does not decode as the
    /// classified category's wire shape.
    Malformed(CategoryTag),
}

} // verus!
