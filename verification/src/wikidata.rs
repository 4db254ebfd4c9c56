//! Topping up the map of ATP ids from Wikidata: which titles to ask about, how
//! to ask, and what the replies say.
//!
//! Wikidata is used because it publishes these ids as structured, CC0,
//! API-accessible data keyed by the same Wikipedia titles we already treat as
//! identity — so the map is derived from a permitted source rather than typed
//! by hand.
//!
//! Existing entries are kept: a player who drops off the table keeps their id,
//! so the map only ever grows and a bad network day cannot silently empty it.
//! Titles that resolve to no id are reported, not guessed.

use vstd::prelude::*;
use vstd::utf8::encode_utf8;

use crate::atp::{
    ascending, ascending_map, before_is_strict, comes_before,
    ids_are_a_capital_and_three_capitals_or_digits, pairs_map, pairs_model, valid_id,
    well_formed_id, IdTable,
};
use crate::digest::{bytes_read_back_from_their_digits, hex_byte, hex_value, push_hex};
use crate::model::{Snapshot, SnapshotModel};
use crate::reading::{lacks, nothing_to_replace};
use crate::text::{
    chars_of, clone_opt, debug_quoted, debug_text, join, joined, replace, replaced, same_text,
    string_of, string_opt, strings,
};

verus! {

/// `wbgetentities` accepts 50 titles per request; one round trip covers the
/// whole field.
pub const BATCH: usize = 50;

// ---------------------------------------------------------------------------
// Asking
// ---------------------------------------------------------------------------

/// A byte that stands for itself in a query string.
pub open spec fn unreserved(b: u8) -> bool {
    ||| 65 <= b <= 90
    ||| 97 <= b <= 122
    ||| 48 <= b <= 57
    ||| b == 45
    ||| b == 95
    ||| b == 46
    ||| b == 126
}

/// A byte in a query string.
pub open spec fn encoded_byte(b: u8) -> Seq<char> {
    if unreserved(b) {
        seq![b as char]
    } else {
        seq!['%'] + hex_byte(b, 'A')
    }
}

/// The bytes in a query string.
pub open spec fn encoded(bytes: Seq<u8>) -> Seq<char>
    decreases bytes.len(),
{
    if bytes.len() == 0 {
        seq![]
    } else {
        encoded(bytes.drop_last()) + encoded_byte(bytes.last())
    }
}

/// Enough of RFC 3986 for an article title in a query string.
pub fn percent_encode(s: &str) -> (r: String)
    ensures
        r@ == encoded(encode_utf8(s@)),
{
    let bytes = s.as_bytes();
    let mut out = String::new();
    let mut i: usize = 0;
    assert(bytes@.take(0) =~= seq![]);
    while i < bytes.len()
        invariant
            i <= bytes@.len(),
            out@ == encoded(bytes@.take(i as int)),
        decreases bytes@.len() - i,
    {
        let b = bytes[i];
        let ghost front = out@;
        assert(bytes@.take(i + 1).drop_last() =~= bytes@.take(i as int));
        if (65 <= b && b <= 90) || (97 <= b && b <= 122) || (48 <= b && b <= 57) || b == 45 || b
            == 95 || b == 46 || b == 126 {
            out.push(b as char);
            assert(out@ =~= front + encoded_byte(b));
        } else {
            out.push('%');
            push_hex(&mut out, b, true);
            assert(out@ =~= front + encoded_byte(b));
        }
        i += 1;
    }
    assert(bytes@.take(i as int) =~= bytes@);
    out
}

/// The titles in a query string.
pub open spec fn encoded_titles(titles: Seq<Seq<char>>) -> Seq<Seq<char>> {
    titles.map_values(|t: Seq<char>| encoded(encode_utf8(t)))
}

/// The address that answers for some titles.
pub open spec fn lookup_address(titles: Seq<Seq<char>>) -> Seq<char> {
    "https://www.wikidata.org/w/api.php?action=wbgetentities&sites=enwiki&titles="@ + joined(
        encoded_titles(titles),
        "%7C"@,
    ) + "&props=claims%7Csitelinks&format=json&formatversion=2"@
}

/// One `wbgetentities` call: enwiki titles in, P536 values out.
pub fn lookup_url(titles: &Vec<String>) -> (r: String)
    ensures
        r@ == lookup_address(strings(titles@)),
{
    let mut parts: Vec<String> = Vec::new();
    let mut i: usize = 0;
    while i < titles.len()
        invariant
            i <= titles@.len(),
            parts@.len() == i,
            forall|k: int|
                0 <= k < i ==> (#[trigger] parts@[k])@ == encoded(encode_utf8(titles@[k]@)),
        decreases titles@.len() - i,
    {
        parts.push(percent_encode(titles[i].as_str()));
        i += 1;
    }
    assert(strings(parts@) =~= encoded_titles(strings(titles@)));
    let mut out =
        "https://www.wikidata.org/w/api.php?action=wbgetentities&sites=enwiki&titles=".to_string();
    out.append(join(&parts, "%7C").as_str());
    out.append("&props=claims%7Csitelinks&format=json&formatversion=2");
    out
}

/// The address of an article's wikitext.
pub open spec fn wikitext_address(page: Seq<char>) -> Seq<char> {
    "https://en.wikipedia.org/w/api.php?action=parse&format=json&formatversion=2&prop=wikitext&page="@
        + page
}

/// Where Wikipedia's public API gives an article's wikitext.
pub fn wikitext_url(page: &str) -> (r: String)
    ensures
        r@ == wikitext_address(page@),
{
    let mut out =
        "https://en.wikipedia.org/w/api.php?action=parse&format=json&formatversion=2&prop=wikitext&page=".to_string();
    out.append(page);
    out
}

// ---------------------------------------------------------------------------
// JSON
// ---------------------------------------------------------------------------

/// A JSON value, opened one level: what a list or an object holds stays JSON
/// text.
#[derive(Debug, Clone)]
pub enum JsonNode {
    Null,
    Bool(bool),
    Number(String),
    Text(String),
    List(Vec<String>),
    Object(Vec<(String, String)>),
}

/// What a `JsonNode` says.
pub enum NodeModel {
    Null,
    Bool(bool),
    Number(Seq<char>),
    Text(Seq<char>),
    List(Seq<Seq<char>>),
    Object(Seq<(Seq<char>, Seq<char>)>),
}

impl View for JsonNode {
    type V = NodeModel;

    open spec fn view(&self) -> NodeModel {
        match *self {
            JsonNode::Null => NodeModel::Null,
            JsonNode::Bool(b) => NodeModel::Bool(b),
            JsonNode::Number(n) => NodeModel::Number(n@),
            JsonNode::Text(t) => NodeModel::Text(t@),
            JsonNode::List(items) => NodeModel::List(strings(items@)),
            JsonNode::Object(members) => NodeModel::Object(pairs_model(members@)),
        }
    }
}

/// The value that a JSON text writes, opened one level, as the `serde_json`
/// crate reads it and writes its parts.
pub uninterp spec fn json_read(text: Seq<char>) -> Option<NodeModel>;

/// `serde_json::from_str` into a `serde_json::Value`, with the parts of a list
/// or an object written back by the `Display` of `Value`; an error for a text
/// that is no JSON.
#[verifier::external_body]
fn open_json(text: &str) -> (r: Option<JsonNode>)
    ensures
        match r {
            Some(node) => json_read(text@) == Some(node@),
            None => json_read(text@) is None,
        },
{
    Some(match serde_json::from_str::<serde_json::Value>(text).ok()? {
        serde_json::Value::Null => JsonNode::Null,
        serde_json::Value::Bool(b) => JsonNode::Bool(b),
        serde_json::Value::Number(n) => JsonNode::Number(n.to_string()),
        serde_json::Value::String(s) => JsonNode::Text(s),
        serde_json::Value::Array(a) => JsonNode::List(a.iter().map(|v| v.to_string()).collect()),
        serde_json::Value::Object(o) => {
            JsonNode::Object(o.iter().map(|(k, v)| (k.clone(), v.to_string())).collect())
        },
    })
}

/// The first member from `from` on with a key.
pub open spec fn member_from(
    members: Seq<(Seq<char>, Seq<char>)>,
    key: Seq<char>,
    from: int,
) -> Option<Seq<char>>
    decreases members.len() - from,
{
    if from >= members.len() {
        None
    } else if members[from].0 == key {
        Some(members[from].1)
    } else {
        member_from(members, key, from + 1)
    }
}

/// The member of an object.
pub open spec fn member(text: Seq<char>, key: Seq<char>) -> Option<Seq<char>> {
    match json_read(text) {
        Some(NodeModel::Object(members)) => member_from(members, key, 0),
        _ => None,
    }
}

/// The member of a member, and so on.
pub open spec fn descend(text: Option<Seq<char>>, key: Seq<char>) -> Option<Seq<char>> {
    match text {
        Some(t) => member(t, key),
        None => None,
    }
}

/// The string that a JSON text writes.
pub open spec fn as_text(text: Option<Seq<char>>) -> Option<Seq<char>> {
    match text {
        Some(t) => match json_read(t) {
            Some(NodeModel::Text(s)) => Some(s),
            _ => None,
        },
        None => None,
    }
}

/// The items of the list that a JSON text writes; none where it writes none.
pub open spec fn items(text: Option<Seq<char>>) -> Seq<Seq<char>> {
    match text {
        Some(t) => match json_read(t) {
            Some(NodeModel::List(list)) => list,
            _ => seq![],
        },
        None => seq![],
    }
}

fn find_member(members: &Vec<(String, String)>, key: &str) -> (r: Option<String>)
    ensures
        string_opt(r) == member_from(pairs_model(members@), key@, 0),
{
    let ghost all = pairs_model(members@);
    let mut i: usize = 0;
    while i < members.len()
        invariant
            i <= members@.len(),
            all == pairs_model(members@),
            member_from(all, key@, 0) == member_from(all, key@, i as int),
        decreases members@.len() - i,
    {
        assert(all[i as int] == (members@[i as int].0@, members@[i as int].1@));
        if same_text(members[i].0.as_str(), key) {
            return Some(members[i].1.clone());
        }
        i += 1;
    }
    None
}

fn get_member(text: &Option<String>, key: &str) -> (r: Option<String>)
    ensures
        string_opt(r) == descend(string_opt(*text), key@),
{
    match text {
        Some(t) => match open_json(t.as_str()) {
            Some(JsonNode::Object(members)) => find_member(&members, key),
            _ => None,
        },
        None => None,
    }
}

fn get_text(text: &Option<String>) -> (r: Option<String>)
    ensures
        string_opt(r) == as_text(string_opt(*text)),
{
    match text {
        Some(t) => match open_json(t.as_str()) {
            Some(JsonNode::Text(s)) => Some(s),
            _ => None,
        },
        None => None,
    }
}

fn get_items(text: &Option<String>) -> (r: Vec<String>)
    ensures
        strings(r@) == items(string_opt(*text)),
{
    let none: Vec<String> = Vec::new();
    assert(strings(none@) =~= seq![]);
    match text {
        Some(t) => match open_json(t.as_str()) {
            Some(JsonNode::List(list)) => list,
            _ => none,
        },
        None => none,
    }
}

// ---------------------------------------------------------------------------
// The article's wikitext
// ---------------------------------------------------------------------------

/// Why a reply is not what was asked for.
#[derive(Debug, Clone)]
pub enum ReplyError {
    ArticleNotJson,
    NoWikitext,
    NotJson,
    /// What the service says went wrong, as JSON.
    Api { info: String },
    NoEntities,
}

/// What a `ReplyError` says.
pub enum ReplyErrorModel {
    ArticleNotJson,
    NoWikitext,
    NotJson,
    Api { info: Seq<char> },
    NoEntities,
}

impl View for ReplyError {
    type V = ReplyErrorModel;

    open spec fn view(&self) -> ReplyErrorModel {
        match *self {
            ReplyError::ArticleNotJson => ReplyErrorModel::ArticleNotJson,
            ReplyError::NotJson => ReplyErrorModel::NotJson,
            ReplyError::NoWikitext => ReplyErrorModel::NoWikitext,
            ReplyError::Api { info } => ReplyErrorModel::Api { info: info@ },
            ReplyError::NoEntities => ReplyErrorModel::NoEntities,
        }
    }
}

/// The wikitext in a reply of Wikipedia's API.
pub open spec fn wikitext_reply(body: Seq<char>) -> Result<Seq<char>, ReplyErrorModel> {
    if json_read(body) is None {
        Err(ReplyErrorModel::ArticleNotJson)
    } else {
        match as_text(descend(member(body, "parse"@), "wikitext"@)) {
            Some(text) => Ok(text),
            None => Err(ReplyErrorModel::NoWikitext),
        }
    }
}

/// The wikitext in a reply of Wikipedia's API.
pub fn wikitext_in(body: &str) -> (r: Result<String, ReplyError>)
    ensures
        match r {
            Ok(text) => wikitext_reply(body@) == Ok::<Seq<char>, ReplyErrorModel>(text@),
            Err(e) => wikitext_reply(body@) == Err::<Seq<char>, ReplyErrorModel>(e@),
        },
{
    if open_json(body).is_none() {
        return Err(ReplyError::ArticleNotJson);
    }
    let whole = Some(body.to_string());
    let text = get_text(&get_member(&get_member(&whole, "parse"), "wikitext"));
    match text {
        Some(t) => Ok(t),
        None => Err(ReplyError::NoWikitext),
    }
}

// ---------------------------------------------------------------------------
// The ids in a reply
// ---------------------------------------------------------------------------

/// A statement of a player's ATP id.
#[derive(Debug, Clone)]
pub struct Statement {
    pub rank: Option<String>,
    pub id: Option<String>,
}

/// What a `Statement` says.
pub struct StatementModel {
    pub rank: Option<Seq<char>>,
    pub id: Option<Seq<char>>,
}

impl View for Statement {
    type V = StatementModel;

    open spec fn view(&self) -> StatementModel {
        StatementModel { rank: string_opt(self.rank), id: string_opt(self.id) }
    }
}

/// What a list of statements says.
pub open spec fn statements_model(statements: Seq<Statement>) -> Seq<StatementModel> {
    statements.map_values(|s: Statement| s@)
}

/// What a reply says of one entity: its English article, and the ids stated.
#[derive(Debug, Clone)]
pub struct Entity {
    pub title: Option<String>,
    pub statements: Vec<Statement>,
}

/// What an `Entity` says.
pub struct EntityModel {
    pub title: Option<Seq<char>>,
    pub statements: Seq<StatementModel>,
}

impl View for Entity {
    type V = EntityModel;

    open spec fn view(&self) -> EntityModel {
        EntityModel {
            title: string_opt(self.title),
            statements: statements_model(self.statements@),
        }
    }
}

/// What a list of entities says.
pub open spec fn entities_model(entities: Seq<Entity>) -> Seq<EntityModel> {
    entities.map_values(|e: Entity| e@)
}

pub open spec fn is_deprecated(s: StatementModel) -> bool {
    s.rank == Some("deprecated"@)
}

pub open spec fn is_preferred(s: StatementModel) -> bool {
    s.rank == Some("preferred"@)
}

/// The statement to go by: the last preferred one, or the last one that is not
/// deprecated where none is preferred.
pub open spec fn picked_statement(statements: Seq<StatementModel>) -> Option<StatementModel>
    decreases statements.len(),
{
    if statements.len() == 0 {
        None
    } else {
        let s = statements.last();
        let best = picked_statement(statements.drop_last());
        if is_deprecated(s) || (best matches Some(b) && is_preferred(b) && !is_preferred(s)) {
            best
        } else {
            Some(s)
        }
    }
}

/// A deprecated statement is never gone by, and a preferred one always is where
/// there is one: that is how Wikidata records a superseded id.
pub proof fn superseded_ids_are_passed_over(statements: Seq<StatementModel>)
    ensures
        match picked_statement(statements) {
            Some(s) => {
                &&& statements.contains(s)
                &&& !is_deprecated(s)
                &&& is_preferred(s) || forall|i: int|
                    0 <= i < statements.len() ==> !is_preferred(#[trigger] statements[i])
            },
            None => forall|i: int|
                0 <= i < statements.len() ==> is_deprecated(#[trigger] statements[i]),
        },
    decreases statements.len(),
{
    reveal_strlit("deprecated");
    reveal_strlit("preferred");
    assert("deprecated"@[0] == 'd');
    assert("preferred"@[0] == 'p');
    if statements.len() > 0 {
        let front = statements.drop_last();
        let n = statements.len() as int;
        superseded_ids_are_passed_over(front);
        assert(statements[n - 1] == statements.last());
        assert forall|i: int| 0 <= i < n - 1 implies front[i] == #[trigger] statements[i] by {}
        if let Some(b) = picked_statement(front) {
            let k = choose|k: int| 0 <= k < front.len() && front[k] == b;
            assert(statements[k] == b);
        }
    }
}

/// The id in the statement to go by.
pub open spec fn stated_id(e: EntityModel) -> Option<Seq<char>> {
    match picked_statement(e.statements) {
        Some(s) => s.id,
        None => None,
    }
}

/// The ids that entities state for their articles. An entity without an English
/// article is not one of the titles asked about.
pub open spec fn resolved_ids(entities: Seq<EntityModel>) -> Map<Seq<char>, Seq<char>>
    decreases entities.len(),
{
    if entities.len() == 0 {
        Map::empty()
    } else {
        let before = resolved_ids(entities.drop_last());
        match (entities.last().title, stated_id(entities.last())) {
            (Some(title), Some(id)) => before.insert(title, id),
            _ => before,
        }
    }
}

fn ranked(s: &Statement, rank: &str) -> (r: bool)
    ensures
        r == (s@.rank == Some(rank@)),
{
    match &s.rank {
        Some(t) => same_text(t.as_str(), rank),
        None => false,
    }
}

/// Statements marked deprecated are skipped, and a `preferred` one wins over
/// `normal` — that is how Wikidata records a superseded id.
pub fn pick_id(statements: &Vec<Statement>) -> (r: Option<String>)
    ensures
        string_opt(r) == (match picked_statement(statements_model(statements@)) {
            Some(s) => s.id,
            None => None,
        }),
{
    let ghost all = statements_model(statements@);
    let mut best: Option<usize> = None;
    let mut i: usize = 0;
    while i < statements.len()
        invariant
            i <= statements@.len(),
            all == statements_model(statements@),
            match best {
                Some(b) => b < i && picked_statement(all.take(i as int)) == Some(all[b as int]),
                None => picked_statement(all.take(i as int)) is None,
            },
        decreases statements@.len() - i,
    {
        assert(all.take(i + 1).drop_last() =~= all.take(i as int));
        assert(all.take(i + 1).last() == statements@[i as int]@);
        let s = &statements[i];
        let keep = ranked(s, "deprecated") || match best {
            Some(b) => {
                assert(all[b as int] == statements@[b as int]@);
                ranked(&statements[b], "preferred") && !ranked(s, "preferred")
            },
            None => false,
        };
        if !keep {
            best = Some(i);
        }
        i += 1;
    }
    assert(all.take(i as int) =~= all);
    match best {
        Some(b) => {
            assert(all[b as int] == statements@[b as int]@);
            clone_opt(&statements[b].id)
        },
        None => None,
    }
}

/// The ids that entities state for their articles.
pub fn resolve(entities: &Vec<Entity>) -> (r: IdTable)
    ensures
        r.well_formed(),
        r@ == resolved_ids(entities_model(entities@)),
{
    let ghost all = entities_model(entities@);
    let mut out = IdTable::new();
    let mut i: usize = 0;
    assert(all.take(0) =~= seq![]);
    while i < entities.len()
        invariant
            i <= entities@.len(),
            all == entities_model(entities@),
            out.well_formed(),
            out@ == resolved_ids(all.take(i as int)),
        decreases entities@.len() - i,
    {
        assert(all.take(i + 1).drop_last() =~= all.take(i as int));
        assert(all.take(i + 1).last() == entities@[i as int]@);
        let e = &entities[i];
        if let Some(title) = &e.title {
            if let Some(id) = pick_id(&e.statements) {
                out.insert(title.clone(), id);
            }
        }
        i += 1;
    }
    assert(all.take(i as int) =~= all);
    out
}

/// A statement as the API writes it.
pub open spec fn statement_in(text: Seq<char>) -> StatementModel {
    StatementModel {
        rank: as_text(member(text, "rank"@)),
        id: as_text(descend(descend(member(text, "mainsnak"@), "datavalue"@), "value"@)),
    }
}

/// An entity as the API writes it.
pub open spec fn entity_in(text: Seq<char>) -> EntityModel {
    EntityModel {
        title: as_text(descend(descend(member(text, "sitelinks"@), "enwiki"@), "title"@)),
        statements: items(descend(member(text, "claims"@), "P536"@)).map_values(
            |s: Seq<char>| statement_in(s),
        ),
    }
}

/// The entities in a reply of Wikidata's API, or what is wrong with it.
pub open spec fn entities_reply(body: Seq<char>) -> Result<Seq<EntityModel>, ReplyErrorModel> {
    if json_read(body) is None {
        Err(ReplyErrorModel::NotJson)
    } else {
        match descend(member(body, "error"@), "info"@) {
            Some(info) => Err(ReplyErrorModel::Api { info }),
            None => match member(body, "entities"@) {
                None => Err(ReplyErrorModel::NoEntities),
                Some(text) => match json_read(text) {
                    Some(NodeModel::Object(members)) => Ok(
                        members.map_values(|m: (Seq<char>, Seq<char>)| entity_in(m.1)),
                    ),
                    _ => Err(ReplyErrorModel::NoEntities),
                },
            },
        }
    }
}

fn read_statement(text: &String) -> (r: Statement)
    ensures
        r@ == statement_in(text@),
{
    let whole = Some(text.clone());
    Statement {
        rank: get_text(&get_member(&whole, "rank")),
        id: get_text(
            &get_member(&get_member(&get_member(&whole, "mainsnak"), "datavalue"), "value"),
        ),
    }
}

fn read_entity(text: &String) -> (r: Entity)
    ensures
        r@ == entity_in(text@),
{
    let whole = Some(text.clone());
    let title = get_text(
        &get_member(&get_member(&get_member(&whole, "sitelinks"), "enwiki"), "title"),
    );
    let texts = get_items(&get_member(&get_member(&whole, "claims"), "P536"));
    let mut statements: Vec<Statement> = Vec::new();
    let mut i: usize = 0;
    while i < texts.len()
        invariant
            i <= texts@.len(),
            statements@.len() == i,
            forall|k: int| 0 <= k < i ==> (#[trigger] statements@[k])@ == statement_in(texts@[k]@),
        decreases texts@.len() - i,
    {
        statements.push(read_statement(&texts[i]));
        i += 1;
    }
    assert(statements_model(statements@) =~= strings(texts@).map_values(
        |s: Seq<char>| statement_in(s),
    ));
    Entity { title, statements }
}

/// The entities in a reply of Wikidata's API.
pub fn read_reply(body: &str) -> (r: Result<Vec<Entity>, ReplyError>)
    ensures
        match r {
            Ok(entities) => entities_reply(body@) == Ok::<Seq<EntityModel>, ReplyErrorModel>(
                entities_model(entities@),
            ),
            Err(e) => entities_reply(body@) == Err::<Seq<EntityModel>, ReplyErrorModel>(e@),
        },
{
    if open_json(body).is_none() {
        return Err(ReplyError::NotJson);
    }
    let whole = Some(body.to_string());
    if let Some(info) = get_member(&get_member(&whole, "error"), "info") {
        return Err(ReplyError::Api { info });
    }
    let text = match get_member(&whole, "entities") {
        Some(t) => t,
        None => {
            return Err(ReplyError::NoEntities);
        },
    };
    match open_json(text.as_str()) {
        Some(JsonNode::Object(members)) => {
            let mut entities: Vec<Entity> = Vec::new();
            let mut i: usize = 0;
            while i < members.len()
                invariant
                    i <= members@.len(),
                    entities@.len() == i,
                    forall|k: int|
                        0 <= k < i ==> (#[trigger] entities@[k])@ == entity_in(members@[k].1@),
                decreases members@.len() - i,
            {
                entities.push(read_entity(&members[i].1));
                i += 1;
            }
            assert(entities_model(entities@) =~= pairs_model(members@).map_values(
                |m: (Seq<char>, Seq<char>)| entity_in(m.1),
            ));
            Ok(entities)
        },
        _ => Err(ReplyError::NoEntities),
    }
}

/// How an error is worded.
pub open spec fn reply_error_text(e: ReplyErrorModel) -> Seq<char> {
    match e {
        ReplyErrorModel::ArticleNotJson => "API response is not JSON"@,
        ReplyErrorModel::NotJson => "Wikidata gave non-JSON"@,
        ReplyErrorModel::NoWikitext => "API response has no parse.wikitext"@,
        ReplyErrorModel::Api { info } => "Wikidata API error: "@ + info,
        ReplyErrorModel::NoEntities => "Wikidata response has no entities"@,
    }
}

impl ReplyError {
    pub fn message(&self) -> (r: String)
        ensures
            r@ == reply_error_text(self@),
    {
        match self {
            ReplyError::ArticleNotJson => "API response is not JSON".to_string(),
            ReplyError::NotJson => "Wikidata gave non-JSON".to_string(),
            ReplyError::NoWikitext => "API response has no parse.wikitext".to_string(),
            ReplyError::Api { info } => {
                let mut s = "Wikidata API error: ".to_string();
                s.append(info.as_str());
                s
            },
            ReplyError::NoEntities => "Wikidata response has no entities".to_string(),
        }
    }
}

// ---------------------------------------------------------------------------
// Which titles to ask about
// ---------------------------------------------------------------------------

/// The article titles that a snapshot speaks of.
pub open spec fn speaks_of(s: SnapshotModel, title: Seq<char>) -> bool {
    ||| exists|i: int| 0 <= i < s.rows.len() && (#[trigger] s.rows[i]).player_code == title
    ||| exists|i: int|
        0 <= i < s.qualifiers.len() && (#[trigger] s.qualifiers[i]).player_code == title
}

/// Texts in order, each once.
pub open spec fn in_order(titles: Seq<Seq<char>>) -> bool {
    forall|i: int, j: int|
        0 <= i < j < titles.len() ==> comes_before(#[trigger] titles[i], #[trigger] titles[j])
}

/// The titles that a snapshot speaks of, in order and each once.
pub fn player_titles(snapshot: &Snapshot) -> (r: Vec<String>)
    ensures
        in_order(strings(r@)),
        forall|t: Seq<char>| strings(r@).contains(t) <==> speaks_of(snapshot@, t),
{
    let mut seen = IdTable::new();
    let ghost rows = snapshot@.rows;
    let ghost qualifiers = snapshot@.qualifiers;
    let mut i: usize = 0;
    while i < snapshot.rows.len()
        invariant
            i <= snapshot.rows@.len(),
            rows == snapshot@.rows,
            rows.len() == snapshot.rows@.len(),
            seen.well_formed(),
            forall|t: Seq<char>|
                #[trigger] seen@.contains_key(t) <==> exists|k: int|
                    0 <= k < i && (#[trigger] rows[k]).player_code == t,
        decreases snapshot.rows@.len() - i,
    {
        let ghost before = seen@;
        assert(rows[i as int] == snapshot.rows@[i as int]@);
        seen.insert(snapshot.rows[i].player_code.clone(), String::new());
        assert forall|t: Seq<char>| #[trigger] seen@.contains_key(t) <==> exists|k: int|
            0 <= k < i + 1 && (#[trigger] rows[k]).player_code == t by {
            if before.contains_key(t) {
                let k = choose|k: int| 0 <= k < i && (#[trigger] rows[k]).player_code == t;
                assert(rows[k].player_code == t);
            }
            if exists|k: int| 0 <= k < i + 1 && (#[trigger] rows[k]).player_code == t {
                let k = choose|k: int| 0 <= k < i + 1 && (#[trigger] rows[k]).player_code == t;
                if k < i {
                    assert(before.contains_key(t));
                }
            }
            assert(rows[i as int].player_code == rows[i as int].player_code);
        }
        i += 1;
    }
    let mut j: usize = 0;
    while j < snapshot.qualifiers.len()
        invariant
            j <= snapshot.qualifiers@.len(),
            rows == snapshot@.rows,
            qualifiers == snapshot@.qualifiers,
            qualifiers.len() == snapshot.qualifiers@.len(),
            seen.well_formed(),
            forall|t: Seq<char>|
                #[trigger] seen@.contains_key(t) <==> ((exists|k: int|
                    0 <= k < rows.len() && (#[trigger] rows[k]).player_code == t) || (exists|k: int|
                    0 <= k < j && (#[trigger] qualifiers[k]).player_code == t)),
        decreases snapshot.qualifiers@.len() - j,
    {
        let ghost before = seen@;
        assert(qualifiers[j as int] == snapshot.qualifiers@[j as int]@);
        seen.insert(snapshot.qualifiers[j].player_code.clone(), String::new());
        assert forall|t: Seq<char>| #[trigger] seen@.contains_key(t) <==> ((exists|k: int|
            0 <= k < rows.len() && (#[trigger] rows[k]).player_code == t) || (exists|k: int|
            0 <= k < j + 1 && (#[trigger] qualifiers[k]).player_code == t)) by {
            if before.contains_key(t) && exists|k: int|
                0 <= k < j && (#[trigger] qualifiers[k]).player_code == t {
                let k = choose|k: int| 0 <= k < j && (#[trigger] qualifiers[k]).player_code == t;
                assert(qualifiers[k].player_code == t);
            }
            if exists|k: int| 0 <= k < j + 1 && (#[trigger] qualifiers[k]).player_code == t {
                let k = choose|k: int|
                    0 <= k < j + 1 && (#[trigger] qualifiers[k]).player_code == t;
                if k < j {
                    assert(before.contains_key(t));
                }
            }
            assert(qualifiers[j as int].player_code == qualifiers[j as int].player_code);
        }
        j += 1;
    }
    assert forall|t: Seq<char>| #[trigger] seen@.contains_key(t) <==> speaks_of(snapshot@, t) by {}
    let out = titles_of(&seen);
    assert forall|t: Seq<char>| strings(out@).contains(t) <==> speaks_of(snapshot@, t) by {
        assert(seen@.contains_key(t) <==> speaks_of(snapshot@, t));
    }
    out
}

/// The titles of a table, in order and each once.
fn titles_of(table: &IdTable) -> (r: Vec<String>)
    requires
        table.well_formed(),
    ensures
        in_order(strings(r@)),
        forall|t: Seq<char>| strings(r@).contains(t) <==> #[trigger] table@.contains_key(t),
{
    let entries = table.entries();
    let ghost all = pairs_model(entries@);
    let mut out: Vec<String> = Vec::new();
    let mut i: usize = 0;
    while i < entries.len()
        invariant
            i <= entries@.len(),
            all == pairs_model(entries@),
            out@.len() == i,
            forall|k: int| 0 <= k < i ==> (#[trigger] out@[k])@ == all[k].0,
        decreases entries@.len() - i,
    {
        assert(all[i as int].0 == entries@[i as int].0@);
        out.push(entries[i].0.clone());
        i += 1;
    }
    let ghost titles = strings(out@);
    proof {
        assert forall|a: int, b: int| 0 <= a < b < titles.len() implies comes_before(
            #[trigger] titles[a],
            #[trigger] titles[b],
        ) by {
            assert(titles[a] == all[a].0 && titles[b] == all[b].0);
        }
        ascending_map(all);
        assert forall|t: Seq<char>| titles.contains(t) <==> #[trigger] table@.contains_key(t) by {
            if titles.contains(t) {
                let k = choose|k: int| 0 <= k < titles.len() && titles[k] == t;
                assert(all[k].0 == t);
            }
            if table@.contains_key(t) {
                let k = choose|k: int| 0 <= k < all.len() && (#[trigger] all[k]).0 == t;
                assert(titles[k] == t);
            }
        }
    }
    out
}

/// The titles that a map has no id for yet, in their order.
pub open spec fn unmapped(titles: Seq<Seq<char>>, map: Map<Seq<char>, Seq<char>>) -> Seq<Seq<char>>
    decreases titles.len(),
{
    if titles.len() == 0 {
        seq![]
    } else if map.contains_key(titles.last()) {
        unmapped(titles.drop_last(), map)
    } else {
        unmapped(titles.drop_last(), map).push(titles.last())
    }
}

/// The titles that a map has no id for yet, in their order.
pub fn wanted(titles: &Vec<String>, map: &IdTable) -> (r: Vec<String>)
    requires
        map.well_formed(),
    ensures
        strings(r@) == unmapped(strings(titles@), map@),
{
    let ghost all = strings(titles@);
    let mut out: Vec<String> = Vec::new();
    let mut i: usize = 0;
    assert(strings(out@) =~= unmapped(all.take(0), map@));
    while i < titles.len()
        invariant
            i <= titles@.len(),
            all == strings(titles@),
            map.well_formed(),
            strings(out@) == unmapped(all.take(i as int), map@),
        decreases titles@.len() - i,
    {
        let ghost done = out@;
        assert(all.take(i + 1).drop_last() =~= all.take(i as int));
        assert(all.take(i + 1).last() == titles@[i as int]@);
        if map.get(titles[i].as_str()).is_none() {
            out.push(titles[i].clone());
            assert(strings(out@) =~= strings(done).push(titles@[i as int]@));
        }
        i += 1;
    }
    assert(all.take(i as int) =~= all);
    out
}

/// Nothing is asked about that is already mapped.
pub proof fn mapped_titles_are_not_asked_about(
    titles: Seq<Seq<char>>,
    map: Map<Seq<char>, Seq<char>>,
)
    ensures
        forall|i: int|
            0 <= i < unmapped(titles, map).len() ==> !map.contains_key(
                #[trigger] unmapped(titles, map)[i],
            ) && titles.contains(unmapped(titles, map)[i]),
    decreases titles.len(),
{
    if titles.len() > 0 {
        let front = titles.drop_last();
        mapped_titles_are_not_asked_about(front, map);
        let all = unmapped(titles, map);
        let before = unmapped(front, map);
        assert forall|i: int| 0 <= i < all.len() implies !map.contains_key(#[trigger] all[i])
            && titles.contains(all[i]) by {
            if i < before.len() {
                assert(all[i] == before[i]);
                let k = choose|k: int| 0 <= k < front.len() && front[k] == before[i];
                assert(titles[k] == all[i]);
            } else {
                assert(titles[titles.len() - 1] == all[i]);
            }
        }
    }
}

/// A list cut into runs of `n`, the last of what is left.
pub open spec fn runs(titles: Seq<Seq<char>>, n: nat) -> Seq<Seq<Seq<char>>>
    decreases titles.len(),
{
    if titles.len() == 0 || n == 0 {
        seq![]
    } else if titles.len() <= n {
        seq![titles]
    } else {
        seq![titles.take(n as int)] + runs(titles.skip(n as int), n)
    }
}

/// What a list of lists of strings holds.
pub open spec fn string_lists(lists: Seq<Vec<String>>) -> Seq<Seq<Seq<char>>> {
    lists.map_values(|l: Vec<String>| strings(l@))
}

/// The titles in as many requests as they need.
pub fn batches(titles: &Vec<String>) -> (r: Vec<Vec<String>>)
    ensures
        string_lists(r@) == runs(strings(titles@), BATCH as nat),
{
    let ghost all = strings(titles@);
    let mut out: Vec<Vec<String>> = Vec::new();
    let end: usize = titles.len();
    let mut i: usize = 0;
    assert(all.skip(0) =~= all);
    assert(string_lists(out@) + runs(all.skip(0), BATCH as nat) =~= runs(all, BATCH as nat));
    while i < end
        invariant
            i <= end,
            end == titles@.len(),
            all == strings(titles@),
            string_lists(out@) + runs(all.skip(i as int), BATCH as nat) == runs(all, BATCH as nat),
        decreases end - i,
    {
        let ghost rest = all.skip(i as int);
        let ghost done = string_lists(out@);
        let stop: usize = if end - i <= BATCH {
            end
        } else {
            i + BATCH
        };
        let mut batch: Vec<String> = Vec::new();
        let mut k: usize = i;
        while k < stop
            invariant
                i <= k <= stop <= end,
                end == titles@.len(),
                batch@.len() == k - i,
                forall|x: int| 0 <= x < k - i ==> (#[trigger] batch@[x])@ == titles@[i + x]@,
            decreases stop - k,
        {
            batch.push(titles[k].clone());
            k += 1;
        }
        assert(strings(batch@) =~= rest.take(stop - i));
        let ghost added = strings(batch@);
        out.push(batch);
        assert(string_lists(out@) =~= done.push(added));
        assert(rest.skip(stop - i) =~= all.skip(stop as int));
        proof {
            if end - i <= BATCH {
                assert(rest.take(stop - i) =~= rest);
                assert(all.skip(stop as int) =~= seq![]);
                assert(runs(rest, BATCH as nat) =~= seq![rest]);
            }
            assert(string_lists(out@) + runs(all.skip(stop as int), BATCH as nat) =~= done + runs(
                rest,
                BATCH as nat,
            ));
        }
        i = stop;
    }
    assert(all.skip(i as int) =~= seq![]);
    assert(string_lists(out@) =~= runs(all, BATCH as nat));
    out
}

/// The lists one after the other.
pub open spec fn flattened(lists: Seq<Seq<Seq<char>>>) -> Seq<Seq<char>>
    decreases lists.len(),
{
    if lists.len() == 0 {
        seq![]
    } else {
        lists[0] + flattened(lists.drop_first())
    }
}

/// Every title is asked about once, in its order, and no request is empty or
/// larger than the service takes.
pub proof fn every_title_is_asked_about_once(titles: Seq<Seq<char>>)
    ensures
        flattened(runs(titles, BATCH as nat)) == titles,
        forall|i: int|
            0 <= i < runs(titles, BATCH as nat).len() ==> 0 < (#[trigger] runs(
                titles,
                BATCH as nat,
            )[i]).len() <= BATCH,
    decreases titles.len(),
{
    let n = BATCH as nat;
    let cut_up = runs(titles, n);
    if titles.len() == 0 {
        assert(titles =~= seq![]);
    } else if titles.len() <= n {
        assert(cut_up.drop_first() =~= seq![]);
        assert(flattened(cut_up.drop_first()) =~= seq![]);
        assert(flattened(cut_up) =~= titles);
    } else {
        let rest = titles.skip(n as int);
        every_title_is_asked_about_once(rest);
        assert(cut_up.drop_first() =~= runs(rest, n));
        assert(titles.take(n as int) + rest =~= titles);
        assert forall|i: int| 0 <= i < cut_up.len() implies 0 < (#[trigger] cut_up[i]).len()
            <= BATCH by {
            if i > 0 {
                assert(cut_up[i] == runs(rest, n)[i - 1]);
            }
        }
    }
}

// ---------------------------------------------------------------------------
// Taking in what was resolved
// ---------------------------------------------------------------------------

/// The title resolved to a well-formed id.
pub open spec fn has_good_id(t: Seq<char>, resolved: Map<Seq<char>, Seq<char>>) -> bool {
    resolved.contains_key(t) && well_formed_id(resolved[t])
}

/// The map with the well-formed ids that were resolved for the titles.
pub open spec fn topped_up(
    map: Map<Seq<char>, Seq<char>>,
    titles: Seq<Seq<char>>,
    resolved: Map<Seq<char>, Seq<char>>,
) -> Map<Seq<char>, Seq<char>>
    decreases titles.len(),
{
    if titles.len() == 0 {
        map
    } else {
        let t = titles.last();
        let before = topped_up(map, titles.drop_last(), resolved);
        if has_good_id(t, resolved) {
            before.insert(t, resolved[t])
        } else {
            before
        }
    }
}

/// What is reported of a title that did not resolve to a well-formed id.
pub open spec fn report(t: Seq<char>, resolved: Map<Seq<char>, Seq<char>>) -> Seq<char> {
    if resolved.contains_key(t) {
        t + " (rejected id "@ + debug_quoted(resolved[t]) + ")"@
    } else {
        t
    }
}

/// What is reported of the titles that did not resolve to well-formed ids.
pub open spec fn reports(titles: Seq<Seq<char>>, resolved: Map<Seq<char>, Seq<char>>) -> Seq<
    Seq<char>,
>
    decreases titles.len(),
{
    if titles.len() == 0 {
        seq![]
    } else {
        let t = titles.last();
        let before = reports(titles.drop_last(), resolved);
        if has_good_id(t, resolved) {
            before
        } else {
            before.push(report(t, resolved))
        }
    }
}

/// Take in the ids that were resolved for the titles, and give back what is to
/// be reported of the others.
pub fn top_up(map: &mut IdTable, titles: &Vec<String>, resolved: &IdTable) -> (r: Vec<String>)
    requires
        old(map).well_formed(),
        resolved.well_formed(),
    ensures
        final(map).well_formed(),
        final(map)@ == topped_up(old(map)@, strings(titles@), resolved@),
        strings(r@) == reports(strings(titles@), resolved@),
{
    let ghost all = strings(titles@);
    let ghost start = map@;
    let mut unresolved: Vec<String> = Vec::new();
    let mut i: usize = 0;
    assert(strings(unresolved@) =~= reports(all.take(0), resolved@));
    while i < titles.len()
        invariant
            i <= titles@.len(),
            all == strings(titles@),
            start == old(map)@,
            map.well_formed(),
            resolved.well_formed(),
            map@ == topped_up(start, all.take(i as int), resolved@),
            strings(unresolved@) == reports(all.take(i as int), resolved@),
        decreases titles@.len() - i,
    {
        let ghost done = unresolved@;
        assert(all.take(i + 1).drop_last() =~= all.take(i as int));
        assert(all.take(i + 1).last() == titles@[i as int]@);
        let title = &titles[i];
        match resolved.get(title.as_str()) {
            Some(id) => if valid_id(id.as_str()) {
                map.insert(title.clone(), id.clone());
            } else {
                let mut s = title.clone();
                s.append(" (rejected id ");
                s.append(debug_text(id.as_str()).as_str());
                s.append(")");
                unresolved.push(s);
                assert(strings(unresolved@) =~= strings(done).push(
                    report(title@, resolved@),
                ));
            },
            None => {
                unresolved.push(title.clone());
                assert(strings(unresolved@) =~= strings(done).push(
                    report(title@, resolved@),
                ));
            },
        }
        i += 1;
    }
    assert(all.take(i as int) =~= all);
    unresolved
}

/// Topping up never loses or changes an entry, as long as only unmapped titles
/// were asked about, and every title asked about is then mapped to a
/// well-formed id or was not resolved to one.
pub proof fn the_map_only_grows(
    map: Map<Seq<char>, Seq<char>>,
    titles: Seq<Seq<char>>,
    resolved: Map<Seq<char>, Seq<char>>,
)
    requires
        forall|i: int| 0 <= i < titles.len() ==> !map.contains_key(#[trigger] titles[i]),
    ensures
        forall|k: Seq<char>|
            #[trigger] map.contains_key(k) ==> topped_up(map, titles, resolved).contains_key(k)
                && topped_up(map, titles, resolved)[k] == map[k],
        forall|k: Seq<char>|
            #[trigger] topped_up(map, titles, resolved).contains_key(k) && !map.contains_key(k)
                ==> titles.contains(k) && has_good_id(k, resolved) && topped_up(map, titles, resolved)[k] == resolved[k],
        forall|i: int|
            0 <= i < titles.len() ==> (topped_up(map, titles, resolved).contains_key(
                #[trigger] titles[i],
            ) <==> has_good_id(titles[i], resolved)),
    decreases titles.len(),
{
    if titles.len() > 0 {
        let front = titles.drop_last();
        let n = titles.len() as int;
        assert forall|i: int| 0 <= i < front.len() implies !map.contains_key(
            #[trigger] front[i],
        ) by {
            assert(front[i] == titles[i]);
        }
        the_map_only_grows(map, front, resolved);
        let before = topped_up(map, front, resolved);
        let after = topped_up(map, titles, resolved);
        let t = titles.last();
        assert(titles[n - 1] == t);
        assert forall|k: Seq<char>| #[trigger] after.contains_key(k) && !map.contains_key(
            k,
        ) implies titles.contains(k) && has_good_id(k, resolved) && after[k] == resolved[k] by {
            if k == t {
                assert(titles.contains(t));
                if !has_good_id(t, resolved) {
                    assert(before.contains_key(t));
                }
            } else {
                assert(before.contains_key(k));
                let x = choose|x: int| 0 <= x < front.len() && front[x] == k;
                assert(titles[x] == k);
            }
        }
        assert forall|i: int| 0 <= i < titles.len() implies (after.contains_key(
            #[trigger] titles[i],
        ) <==> has_good_id(titles[i], resolved)) by {
            if i < n - 1 {
                assert(front[i] == titles[i]);
            } else if !has_good_id(t, resolved) {
                if before.contains_key(t) {
                    assert(!map.contains_key(t));
                }
            }
        }
    }
}

/// Some unresolved title is what `text` reports of.
pub open spec fn reports_of_one(
    titles: Seq<Seq<char>>,
    resolved: Map<Seq<char>, Seq<char>>,
    text: Seq<char>,
) -> bool {
    exists|i: int|
        0 <= i < titles.len() && !has_good_id(#[trigger] titles[i], resolved) && text == report(
            titles[i],
            resolved,
        )
}

/// Every title that did not resolve to a well-formed id is reported, and no
/// other.
pub proof fn unresolved_titles_are_reported(
    titles: Seq<Seq<char>>,
    resolved: Map<Seq<char>, Seq<char>>,
)
    ensures
        forall|i: int|
            0 <= i < titles.len() && !has_good_id(#[trigger] titles[i], resolved) ==> reports(
                titles,
                resolved,
            ).contains(report(titles[i], resolved)),
        forall|k: int|
            0 <= k < reports(titles, resolved).len() ==> reports_of_one(
                titles,
                resolved,
                #[trigger] reports(titles, resolved)[k],
            ),
    decreases titles.len(),
{
    if titles.len() > 0 {
        let front = titles.drop_last();
        let n = titles.len() as int;
        let before = reports(front, resolved);
        let all = reports(titles, resolved);
        unresolved_titles_are_reported(front, resolved);
        assert(titles[n - 1] == titles.last());
        assert forall|i: int|
            0 <= i < titles.len() && !has_good_id(#[trigger] titles[i], resolved) implies all.contains(
            report(titles[i], resolved),
        ) by {
            if i < n - 1 {
                assert(front[i] == titles[i]);
                let k = choose|k: int|
                    0 <= k < before.len() && before[k] == report(front[i], resolved);
                assert(all[k] == report(titles[i], resolved));
            } else {
                assert(all[all.len() - 1] == report(titles[i], resolved));
            }
        }
        assert forall|k: int| 0 <= k < all.len() implies reports_of_one(
            titles,
            resolved,
            #[trigger] all[k],
        ) by {
            if k < before.len() {
                assert(all[k] == before[k]);
                assert(reports_of_one(front, resolved, before[k]));
                let i = choose|i: int|
                    0 <= i < front.len() && !has_good_id(#[trigger] front[i], resolved) && before[k]
                        == report(front[i], resolved);
                assert(titles[i] == front[i]);
            } else {
                assert(!has_good_id(titles[n - 1], resolved));
            }
        }
    }
}

// ---------------------------------------------------------------------------
// Writing the map down
// ---------------------------------------------------------------------------

/// A text as a TOML string.
pub open spec fn quoted(s: Seq<char>) -> Seq<char> {
    "\""@ + replaced(replaced(s, "\\"@, "\\\\"@), "\""@, "\\\""@) + "\""@
}

pub fn quote(s: &str) -> (r: String)
    ensures
        r@ == quoted(s@),
{
    let chars = chars_of(s);
    let escaped = replace(chars.as_slice(), "\\", "\\\\");
    let escaped = replace(escaped.as_slice(), "\"", "\\\"");
    let mut out = "\"".to_string();
    out.append(string_of(escaped.as_slice()).as_str());
    out.append("\"");
    out
}

/// One entry as a line.
pub open spec fn entry_line(title: Seq<char>, id: Seq<char>) -> Seq<char> {
    quoted(title) + " = "@ + quoted(id) + "\n"@
}

/// The entries as lines.
pub open spec fn entry_lines(entries: Seq<(Seq<char>, Seq<char>)>) -> Seq<char>
    decreases entries.len(),
{
    if entries.len() == 0 {
        seq![]
    } else {
        entry_lines(entries.drop_last()) + entry_line(entries.last().0, entries.last().1)
    }
}

/// What stands above the entries.
pub const HEADER: &'static str = "\
# GENERATED — do not edit by hand.
#
# Wikipedia article title -> ATP player id (Wikidata property P536, CC0),
# used to link a player's name to https://www.atptour.com/en/players/-/<id>/overview.
# Regenerate with `cargo run --bin refresh-atp-ids`.
#
# Titles last read from: ";

/// The document for a map: a header that says where the titles were read, and a
/// line per entry in the order of the titles. Titles carry spaces and
/// disambiguating parentheses, so keys are always quoted.
pub fn write_out(map: &IdTable, origin: &str) -> (r: String)
    requires
        map.well_formed(),
    ensures
        exists|entries: Seq<(Seq<char>, Seq<char>)>|
            {
                &&& ascending(entries)
                &&& pairs_map(entries) == map@
                &&& r@ == HEADER@ + origin@ + "\n\n"@ + #[trigger] entry_lines(entries)
            },
        forall|entries: Seq<(Seq<char>, Seq<char>)>|
            ascending(entries) && pairs_map(entries) == map@ ==> r@ == HEADER@ + origin@ + "\n\n"@
                + #[trigger] entry_lines(entries),
{
    let entries = map.entries();
    let ghost all = pairs_model(entries@);
    let mut lines = String::new();
    let mut i: usize = 0;
    assert(lines@ =~= entry_lines(all.take(0)));
    while i < entries.len()
        invariant
            i <= entries@.len(),
            all == pairs_model(entries@),
            lines@ == entry_lines(all.take(i as int)),
        decreases entries@.len() - i,
    {
        assert(all.take(i + 1).drop_last() =~= all.take(i as int));
        assert(all.take(i + 1).last() == (entries@[i as int].0@, entries@[i as int].1@));
        let mut line = quote(entries[i].0.as_str());
        line.append(" = ");
        line.append(quote(entries[i].1.as_str()).as_str());
        line.append("\n");
        lines.append(line.as_str());
        i += 1;
    }
    assert(all.take(i as int) =~= all);
    let mut text = HEADER.to_string();
    text.append(origin);
    text.append("\n\n");
    text.append(lines.as_str());
    assert(text@ == HEADER@ + origin@ + "\n\n"@ + entry_lines(all));
    assert forall|entries: Seq<(Seq<char>, Seq<char>)>|
        ascending(entries) && pairs_map(entries) == map@ implies text@ == HEADER@ + origin@
        + "\n\n"@ + #[trigger] entry_lines(entries) by {
        entries_are_determined(entries, all);
    }
    text
}

/// A map has one list of entries in order, so the document for it is one text.
pub proof fn entries_are_determined(
    a: Seq<(Seq<char>, Seq<char>)>,
    b: Seq<(Seq<char>, Seq<char>)>,
)
    requires
        ascending(a),
        ascending(b),
        pairs_map(a) == pairs_map(b),
    ensures
        a == b,
    decreases a.len(),
{
    ascending_map(a);
    ascending_map(b);
    if a.len() > 0 {
        let n = a.len() as int;
        let m = pairs_map(a);
        let x = a.last();
        let y = b.last();
        assert(a[n - 1] == x && b[n - 1] == y);
        assert(m.contains_key(x.0) && m.contains_key(y.0));
        let j = choose|j: int| 0 <= j < b.len() && (#[trigger] b[j]).0 == x.0;
        let k = choose|k: int| 0 <= k < a.len() && (#[trigger] a[k]).0 == y.0;
        if x.0 != y.0 {
            assert(comes_before(b[j].0, b[n - 1].0));
            assert(comes_before(a[k].0, a[n - 1].0));
            before_is_strict(x.0, y.0);
        }
        let fa = a.drop_last();
        let fb = b.drop_last();
        assert(ascending(fa)) by {
            assert forall|p: int, q: int| 0 <= p < q < fa.len() implies comes_before(
                (#[trigger] fa[p]).0,
                (#[trigger] fa[q]).0,
            ) by {
                assert(comes_before(a[p].0, a[q].0));
            }
        }
        assert(ascending(fb)) by {
            assert forall|p: int, q: int| 0 <= p < q < fb.len() implies comes_before(
                (#[trigger] fb[p]).0,
                (#[trigger] fb[q]).0,
            ) by {
                assert(comes_before(b[p].0, b[q].0));
            }
        }
        ascending_map(fa);
        ascending_map(fb);
        assert(!pairs_map(fa).contains_key(x.0)) by {
            if pairs_map(fa).contains_key(x.0) {
                let i = choose|i: int| 0 <= i < fa.len() && (#[trigger] fa[i]).0 == x.0;
                assert(comes_before(a[i].0, a[n - 1].0));
                before_is_strict(x.0, x.0);
            }
        }
        assert(!pairs_map(fb).contains_key(y.0)) by {
            if pairs_map(fb).contains_key(y.0) {
                let i = choose|i: int| 0 <= i < fb.len() && (#[trigger] fb[i]).0 == y.0;
                assert(comes_before(b[i].0, b[n - 1].0));
                before_is_strict(y.0, y.0);
            }
        }
        assert(pairs_map(fa) =~= m.remove(x.0));
        assert(pairs_map(fb) =~= m.remove(y.0));
        entries_are_determined(fa, fb);
        assert(a =~= fa.push(x) && b =~= fb.push(y));
    } else {
        assert(b =~= a);
    }
}

// ---------------------------------------------------------------------------
// What is asked, what is picked, and what is kept
// ---------------------------------------------------------------------------

/// In a query a letter, a digit or one of `-_.~` stands for itself; any other
/// byte is a percent sign and the two capital hexadecimal digits of it. Bytes
/// are encoded one after the other.
pub proof fn queries_are_percent_encoded(b: u8, x: Seq<u8>, y: Seq<u8>)
    ensures
        ({
            let c = b as char;
            let plain = 'a' <= c <= 'z' || 'A' <= c <= 'Z' || '0' <= c <= '9' || c == '-' || c
                == '_' || c == '.' || c == '~';
            let e = encoded(seq![b]);
            &&& plain ==> e == seq![c]
            &&& !plain ==> e.len() == 3 && e[0] == '%' && hex_value(e[1]) * 16 + hex_value(e[2])
                == b && !('a' <= e[1] <= 'f') && !('a' <= e[2] <= 'f')
        }),
        encoded(x + y) == encoded(x) + encoded(y),
{
    let c = b as char;
    assert(c as u32 == b as u32);
    bytes_read_back_from_their_digits(b);
    assert(seq![b].drop_last() =~= seq![]);
    reveal_with_fuel(encoded, 2);
    assert(encoded(seq![b]) =~= encoded_byte(b));
    if !unreserved(b) {
        let e = encoded(seq![b]);
        assert(e[1] == hex_byte(b, 'A')[0]);
        assert(e[2] == hex_byte(b, 'A')[1]);
    }
    encoded_in_order(x, y);
}

proof fn encoded_in_order(x: Seq<u8>, y: Seq<u8>)
    ensures
        encoded(x + y) == encoded(x) + encoded(y),
    decreases y.len(),
{
    if y.len() == 0 {
        assert(x + y =~= x);
        assert(encoded(x) + encoded(y) =~= encoded(x));
    } else {
        encoded_in_order(x, y.drop_last());
        assert((x + y).drop_last() =~= x + y.drop_last());
        assert(encoded(x + y) =~= encoded(x) + encoded(y));
    }
}

/// What is asked about one title carries it encoded between fixed parts, and a
/// further title stands behind an encoded bar.
pub proof fn a_request_names_its_titles(titles: Seq<Seq<char>>, t: Seq<char>)
    ensures
        lookup_address(seq![t])
            == "https://www.wikidata.org/w/api.php?action=wbgetentities&sites=enwiki&titles="@
            + encoded(encode_utf8(t)) + "&props=claims%7Csitelinks&format=json&formatversion=2"@,
        titles.len() > 0 ==> exists|front: Seq<char>|
            lookup_address(titles) == #[trigger] (front
                + "&props=claims%7Csitelinks&format=json&formatversion=2"@) && lookup_address(
                titles.push(t),
            ) == front + "%7C"@ + encoded(encode_utf8(t))
                + "&props=claims%7Csitelinks&format=json&formatversion=2"@,
{
    let one = encoded_titles(seq![t]);
    assert(one =~= seq![encoded(encode_utf8(t))]);
    assert(one.drop_last() =~= seq![]);
    assert(joined(one, "%7C"@) =~= encoded(encode_utf8(t)));
    if titles.len() > 0 {
        let base = "https://www.wikidata.org/w/api.php?action=wbgetentities&sites=enwiki&titles="@;
        let tail = "&props=claims%7Csitelinks&format=json&formatversion=2"@;
        let all = encoded_titles(titles.push(t));
        assert(all.drop_last() =~= encoded_titles(titles));
        assert(all.last() == encoded(encode_utf8(t)));
        let front = base + joined(encoded_titles(titles), "%7C"@);
        assert(lookup_address(titles) == front + tail);
        assert(lookup_address(titles.push(t)) =~= front + "%7C"@ + encoded(encode_utf8(t)) + tail);
    }
}

/// No request asks about more than fifty titles, and every request but the last
/// asks about fifty.
pub proof fn requests_are_filled(titles: Seq<Seq<char>>, i: int)
    requires
        0 <= i < runs(titles, BATCH as nat).len(),
    ensures
        runs(titles, BATCH as nat)[i].len() <= 50,
        i + 1 < runs(titles, BATCH as nat).len() ==> runs(titles, BATCH as nat)[i].len() == 50,
    decreases titles.len(),
{
    let n = BATCH as nat;
    if titles.len() > n && i > 0 {
        requests_are_filled(titles.skip(n as int), i - 1);
    }
}

/// What is asked about is the titles that the map lacks, as they stand in the
/// list.
pub proof fn the_missing_titles_are_asked_about(
    titles: Seq<Seq<char>>,
    map: Map<Seq<char>, Seq<char>>,
)
    ensures
        unmapped(titles, map) == titles.filter(|t: Seq<char>| !map.contains_key(t)),
    decreases titles.len(),
{
    reveal(Seq::filter);
    if titles.len() > 0 {
        the_missing_titles_are_asked_about(titles.drop_last(), map);
    } else {
        assert(unmapped(titles, map) =~= titles.filter(|t: Seq<char>| !map.contains_key(t)));
    }
}

/// The statement gone by is not marked deprecated, and everything behind it is,
/// or falls short of it by not being marked preferred as it is; where it is not
/// marked preferred itself, no statement is.
pub proof fn the_last_of_the_best_statements_is_gone_by(statements: Seq<StatementModel>)
    ensures
        match picked_statement(statements) {
            Some(s) => exists|i: int|
                {
                    &&& 0 <= i < statements.len()
                    &&& #[trigger] statements[i] == s
                    &&& s.rank != Some("deprecated"@)
                    &&& forall|j: int|
                        i < j < statements.len() ==> (#[trigger] statements[j]).rank == Some(
                            "deprecated"@,
                        ) || (s.rank == Some("preferred"@) && statements[j].rank != Some(
                            "preferred"@,
                        ))
                    &&& s.rank == Some("preferred"@) || forall|j: int|
                        0 <= j < statements.len() ==> (#[trigger] statements[j]).rank != Some(
                            "preferred"@,
                        )
                },
            None => forall|j: int|
                0 <= j < statements.len() ==> (#[trigger] statements[j]).rank == Some(
                    "deprecated"@,
                ),
        },
    decreases statements.len(),
{
    reveal_strlit("deprecated");
    reveal_strlit("preferred");
    assert("deprecated"@[0] == 'd');
    assert("preferred"@[0] == 'p');
    if statements.len() > 0 {
        let front = statements.drop_last();
        let n = statements.len() - 1;
        let s = statements.last();
        the_last_of_the_best_statements_is_gone_by(front);
        superseded_ids_are_passed_over(statements);
        assert(statements[n] == s);
        assert forall|j: int| 0 <= j < n implies #[trigger] statements[j] == front[j] by {}
        if picked_statement(statements) == Some(s) && !(picked_statement(front) == Some(s)
            && is_deprecated(s)) {
            if is_deprecated(s) {
                assert(false);
            }
            assert(statements[n] == s);
        } else if let Some(b) = picked_statement(front) {
            let i = choose|i: int|
                {
                    &&& 0 <= i < front.len()
                    &&& #[trigger] front[i] == b
                    &&& b.rank != Some("deprecated"@)
                    &&& forall|j: int|
                        i < j < front.len() ==> (#[trigger] front[j]).rank == Some("deprecated"@)
                            || (b.rank == Some("preferred"@) && front[j].rank != Some(
                            "preferred"@,
                        ))
                    &&& b.rank == Some("preferred"@) || forall|j: int|
                        0 <= j < front.len() ==> (#[trigger] front[j]).rank != Some("preferred"@)
                };
            assert(statements[i] == b);
            assert forall|j: int| i < j < statements.len() implies (
            #[trigger] statements[j]).rank == Some("deprecated"@) || (b.rank == Some("preferred"@)
                && statements[j].rank != Some("preferred"@)) by {
                if j < n {
                    assert(front[j] == statements[j]);
                }
            }
        }
    }
}

/// A title is resolved exactly when an entity with that title states an id, and
/// to the id of the last entity that does.
pub proof fn titles_resolve_to_what_entities_state(entities: Seq<EntityModel>, title: Seq<char>)
    ensures
        resolved_ids(entities).contains_key(title) <==> exists|i: int|
            0 <= i < entities.len() && (#[trigger] entities[i]).title == Some(title) && stated_id(
                entities[i],
            ) is Some,
        resolved_ids(entities).contains_key(title) ==> exists|i: int|
            {
                &&& 0 <= i < entities.len()
                &&& (#[trigger] entities[i]).title == Some(title)
                &&& stated_id(entities[i]) == Some(resolved_ids(entities)[title])
                &&& forall|j: int|
                    i < j < entities.len() && (#[trigger] entities[j]).title == Some(title)
                        ==> stated_id(entities[j]) is None
            },
    decreases entities.len(),
{
    if entities.len() > 0 {
        let front = entities.drop_last();
        let n = entities.len() - 1;
        let e = entities.last();
        titles_resolve_to_what_entities_state(front, title);
        assert(entities[n] == e);
        assert forall|j: int| 0 <= j < n implies #[trigger] entities[j] == front[j] by {}
        if e.title == Some(title) && stated_id(e) is Some {
            assert(entities[n].title == Some(title));
        } else if resolved_ids(entities).contains_key(title) {
            assert(resolved_ids(front).contains_key(title));
            let i = choose|i: int|
                {
                    &&& 0 <= i < front.len()
                    &&& (#[trigger] front[i]).title == Some(title)
                    &&& stated_id(front[i]) == Some(resolved_ids(front)[title])
                    &&& forall|j: int|
                        i < j < front.len() && (#[trigger] front[j]).title == Some(title)
                            ==> stated_id(front[j]) is None
                };
            assert(entities[i] == front[i]);
            assert(resolved_ids(entities)[title] == resolved_ids(front)[title]);
            assert forall|j: int|
                i < j < entities.len() && (#[trigger] entities[j]).title == Some(
                    title,
                ) implies stated_id(entities[j]) is None by {
                if j < n {
                    assert(front[j] == entities[j]);
                }
            }
        } else {
            assert forall|i: int|
                0 <= i < entities.len() && (#[trigger] entities[i]).title == Some(
                    title,
                ) implies !(stated_id(entities[i]) is Some) by {
                if i < n {
                    assert(front[i] == entities[i]);
                }
            }
        }
    }
}

/// Taking in what was resolved gives a title a new id exactly when it was asked
/// about and resolved to a capital and three capitals or digits; every other
/// title keeps what it had.
pub proof fn only_good_ids_are_taken_in(
    map: Map<Seq<char>, Seq<char>>,
    titles: Seq<Seq<char>>,
    resolved: Map<Seq<char>, Seq<char>>,
    t: Seq<char>,
)
    ensures
        ({
            let id = resolved[t];
            let taken = titles.contains(t) && resolved.contains_key(t) && id.len() == 4 && 'A'
                <= id[0] <= 'Z' && forall|i: int|
                1 <= i < 4 ==> 'A' <= #[trigger] id[i] <= 'Z' || '0' <= id[i] <= '9';
            let after = topped_up(map, titles, resolved);
            &&& taken ==> after.contains_key(t) && after[t] == id
            &&& !taken ==> (after.contains_key(t) <==> map.contains_key(t)) && (map.contains_key(t)
                ==> after[t] == map[t])
        }),
    decreases titles.len(),
{
    let id = resolved[t];
    assert(has_good_id(t, resolved) <==> resolved.contains_key(t) && id.len() == 4 && 'A' <= id[0]
        <= 'Z' && forall|i: int|
        1 <= i < 4 ==> 'A' <= #[trigger] id[i] <= 'Z' || '0' <= id[i] <= '9') by {
        ids_are_a_capital_and_three_capitals_or_digits(id);
        if id.len() == 4 && (forall|i: int|
            1 <= i < 4 ==> 'A' <= #[trigger] id[i] <= 'Z' || '0' <= id[i] <= '9') {
            assert('A' <= id[1] <= 'Z' || '0' <= id[1] <= '9');
            assert('A' <= id[2] <= 'Z' || '0' <= id[2] <= '9');
            assert('A' <= id[3] <= 'Z' || '0' <= id[3] <= '9');
        }
    }
    if titles.len() > 0 {
        let front = titles.drop_last();
        let n = titles.len() - 1;
        only_good_ids_are_taken_in(map, front, resolved, t);
        assert(titles[n] == titles.last());
        if front.contains(t) {
            let k = front.index_of(t);
            assert(titles[k] == t);
        }
        if titles.contains(t) && titles.last() != t {
            let k = titles.index_of(t);
            assert(front[k] == t);
        }
    }
}

/// A text without quotes and backslashes is written as it is, between quotes.
pub proof fn plain_texts_are_written_between_quotes(s: Seq<char>)
    requires
        forall|i: int| 0 <= i < s.len() ==> #[trigger] s[i] != '"' && s[i] != '\\',
    ensures
        quoted(s) == seq!['"'] + s + seq!['"'],
{
    reveal_strlit("\\");
    reveal_strlit("\"");
    lacks(s, "\\"@, 0);
    nothing_to_replace(s, "\\"@, "\\\\"@);
    lacks(s, "\""@, 0);
    nothing_to_replace(s, "\""@, "\\\""@);
    assert("\""@ =~= seq!['"']);
}

} // verus!
