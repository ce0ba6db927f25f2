//! Carrying out a command against the store and wording the answer.

use crate::handler::command::{command_of, parse_command, Command, CommandView};
use crate::handler::parser::{parse_expression, parse_expression_spec, scan, tokenize};
use crate::hyperion_db::write::{logs_write, owners, saves_shard};
use crate::hyperion_db::{applied, eval, is_listing, HyperionDB};
use crate::json::{
    array_value, as_str, elements, error_message, json_of, json_parse, json_text, jsons, parse,
    to_text, Json,
};
use crate::router::shard_of;
use crate::shard::shard_entries;
use crate::storage::{
    pair_of, pairs_view, read_pair, snapshot_bytes, FileWrite, StoreError,
};
use crate::text::{push_text, views};
use serde_json::Value;
use vstd::prelude::*;

verus! {

/// The answer to a command: the line for the client, and the writes that
/// make the command's changes durable. Where a write fails the caller
/// answers with the failure in place of `response`.
#[derive(Debug)]
pub struct Reply {
    pub response: String,
    pub writes: Vec<FileWrite>,
}

/// The line that reports a failure.
pub open spec fn err_line(message: Seq<char>) -> Seq<char> {
    ("ERR "@ + message).push('\n')
}

/// Some line that reports a failure.
pub open spec fn is_err_line(line: Seq<char>) -> bool {
    exists|message: Seq<char>| line == #[trigger] err_line(message)
}

/// The line that shows one document.
pub open spec fn doc_line(doc: Json) -> Seq<char> {
    json_text(doc).push('\n')
}

/// The line that shows a list of documents: the text of their JSON array.
pub open spec fn list_line(docs: Seq<Json>) -> Seq<char> {
    json_text(Json::Array(docs)).push('\n')
}

/// The batch of writes that a text spells: a JSON array of `[key, value]`
/// arrays, each of a string and one more document.
pub open spec fn batch_of(json: Seq<char>) -> Option<Seq<(Seq<char>, Json)>> {
    match json_parse(json) {
        Some(Json::Array(items)) => if forall|i: int|
            0 <= i < items.len() ==> pair_of(#[trigger] items[i]) is Some {
            Some(Seq::new(items.len(), |i: int| pair_of(items[i])->0))
        } else {
            None
        },
        _ => None,
    }
}

/// The batch of keys that a text spells: a JSON array of strings.
pub open spec fn keys_of(json: Seq<char>) -> Option<Seq<Seq<char>>> {
    match json_parse(json) {
        Some(Json::Array(items)) => if forall|i: int|
            0 <= i < items.len() ==> #[trigger] items[i] is String {
            Some(Seq::new(items.len(), |i: int| items[i]->String_0))
        } else {
            None
        },
        _ => None,
    }
}

/// Reads a batch of writes. An error carries the message for the client.
pub fn read_batch(json: &str) -> (r: Result<Vec<(String, Value)>, String>)
    ensures
        match r {
            Ok(list) => batch_of(json@) == Some(pairs_view(list@)),
            Err(_) => batch_of(json@) is None,
        },
{
    let doc = match parse(json) {
        Ok(doc) => doc,
        Err(e) => {
            return Err(error_message(&e));
        },
    };
    let items = match elements(&doc) {
        Some(items) => items,
        None => {
            return Err("expected an array of [key, value] pairs".to_owned());
        },
    };
    let ghost docs = jsons(items@);
    let mut list: Vec<(String, Value)> = Vec::new();
    let mut i: usize = 0;
    while i < items.len()
        invariant
            i <= items.len(),
            docs == jsons(items@),
            json_parse(json@) == Some(Json::Array(docs)),
            list.len() == i,
            forall|j: int| 0 <= j < i ==> pair_of(#[trigger] docs[j]) == Some(pairs_view(list@)[j]),
        decreases items.len() - i,
    {
        match read_pair(&items[i]) {
            Some(p) => {
                list.push(p);
            },
            None => {
                assert(pair_of(docs[i as int]) is None);
                return Err("expected an array of [key, value] pairs".to_owned());
            },
        }
        i = i + 1;
    }
    assert(pairs_view(list@) =~= Seq::new(docs.len(), |j: int| pair_of(docs[j])->0));
    Ok(list)
}

/// Reads a batch of keys. An error carries the message for the client.
pub fn read_keys(json: &str) -> (r: Result<Vec<String>, String>)
    ensures
        match r {
            Ok(list) => keys_of(json@) == Some(views(list@)),
            Err(_) => keys_of(json@) is None,
        },
{
    let doc = match parse(json) {
        Ok(doc) => doc,
        Err(e) => {
            return Err(error_message(&e));
        },
    };
    let items = match elements(&doc) {
        Some(items) => items,
        None => {
            return Err("expected an array of keys".to_owned());
        },
    };
    let ghost docs = jsons(items@);
    let mut list: Vec<String> = Vec::new();
    let mut i: usize = 0;
    while i < items.len()
        invariant
            i <= items.len(),
            docs == jsons(items@),
            json_parse(json@) == Some(Json::Array(docs)),
            list.len() == i,
            forall|j: int| 0 <= j < i ==> #[trigger] docs[j] == Json::String(views(list@)[j]),
        decreases items.len() - i,
    {
        match as_str(&items[i]) {
            Some(s) => {
                list.push(s.to_owned());
            },
            None => {
                assert(!(docs[i as int] is String));
                return Err("expected an array of keys".to_owned());
            },
        }
        i = i + 1;
    }
    assert(views(list@) =~= Seq::new(docs.len(), |j: int| docs[j]->String_0));
    Ok(list)
}

/// The line that reports a failure.
pub fn error_line(message: &str) -> (r: String)
    ensures
        r@ == err_line(message@),
{
    let mut r = String::new();
    push_text(&mut r, "ERR ");
    push_text(&mut r, message);
    r.push('\n');
    assert(r@ =~= err_line(message@));
    r
}

/// The line that shows one document.
pub fn document_line(v: &Value) -> (r: String)
    ensures
        r@ == doc_line(json_of(*v)),
{
    let mut r = to_text(v);
    r.push('\n');
    r
}

/// The line that shows a list of documents.
pub fn documents_line(values: Vec<Value>) -> (r: String)
    ensures
        r@ == list_line(jsons(values@)),
{
    let mut r = to_text(&array_value(values));
    r.push('\n');
    r
}

/// A reply without writes.
fn say(response: String) -> (r: Reply)
    ensures
        r.response == response,
        r.writes.len() == 0,
{
    Reply { response, writes: Vec::new() }
}

/// What the shard that owns `key` holds in `db`.
pub open spec fn owner_entries(db: HyperionDB, key: Seq<char>) -> Map<Seq<char>, Json> {
    shard_entries(db.shards[shard_of(key, db.shard_manager.num_shards)])
}

/// The reply to a change that a snapshot of the shard that owns `key`
/// makes durable: where the encoder yields the snapshot, the reply brings
/// it and says `OK`; where the encoder refuses, the reply brings no write
/// and reports a failure.
pub open spec fn saved_or_failed(reply: Reply, after: HyperionDB, key: Seq<char>) -> bool {
    if after.refuses(shard_of(key, after.shard_manager.num_shards)) {
        is_err_line(reply.response@) && reply.writes.len() == 0
    } else {
        &&& reply.response@ == "OK\n"@
        &&& reply.writes.len() == 1
        &&& saves_shard(
            reply.writes[0],
            after.shard_manager.data_dir@,
            shard_of(key, after.shard_manager.num_shards) as u32,
            owner_entries(after, key),
        )
    }
}

/// What carrying out a command comes to: how the records change, what the
/// client is told, and what is to be written.
pub open spec fn handled(
    command: CommandView,
    before: HyperionDB,
    after: HyperionDB,
    reply: Reply,
) -> bool {
    let old = before.records();
    let new = after.records();
    let line = reply.response@;
    let dir = before.shard_manager.data_dir@;
    let n = before.shard_manager.num_shards;
    let quiet = new == old && reply.writes.len() == 0;
    match command {
        CommandView::Get { key } => quiet && line == (if old.contains_key(key) {
            doc_line(old[key])
        } else {
            "NULL\n"@
        }),
        CommandView::List => quiet && exists|values: Seq<Json>| #[trigger]
            is_listing(values, old, old.dom()) && line == list_line(values),
        CommandView::Query { expr } => quiet && match parse_expression_spec(scan(expr, 0)) {
            Err(e) => line == err_line(e.message_spec()),
            Ok(e) => exists|values: Seq<Json>| #[trigger]
                is_listing(values, old, eval(before.registry(), e)) && line == list_line(values),
        },
        CommandView::Insert { key, json } => match json_parse(json) {
            None => quiet && is_err_line(line),
            Some(v) => new == old.insert(key, v) && saved_or_failed(reply, after, key),
        },
        CommandView::InsertOrUpdate { key, json } => match json_parse(json) {
            None => quiet && is_err_line(line),
            Some(v) => new == old.insert(key, v) && line == "OK\n"@ && reply.writes.len() == 1
                && logs_write(reply.writes[0], dir, n, key, v),
        },
        CommandView::InsertOrUpdateMany { json } => match batch_of(json) {
            None => quiet && is_err_line(line),
            Some(pairs) => new == applied(old, pairs, pairs.len() as int) && line == "OK\n"@
                && reply.writes.len() == pairs.len() && forall|i: int|
                0 <= i < pairs.len() ==> logs_write(
                    #[trigger] reply.writes[i],
                    dir,
                    n,
                    pairs[i].0,
                    pairs[i].1,
                ),
        },
        CommandView::Delete { key } => if old.contains_key(key) {
            new == old.remove(key) && saved_or_failed(reply, after, key)
        } else {
            quiet && line == err_line("Key not found"@)
        },
        CommandView::DeleteMany { json } => match keys_of(json) {
            None => quiet && is_err_line(line),
            Some(keys) => new == old.remove_keys(keys.to_set()) && ({
                let ids = owners(keys, n, keys.len() as int);
                if exists|j: int| 0 <= j < ids.len() && after.refuses(#[trigger] ids[j] as int) {
                    is_err_line(line) && reply.writes.len() == 0
                } else {
                    &&& line == "OK\n"@
                    &&& reply.writes.len() == ids.len()
                    &&& forall|j: int|
                        0 <= j < ids.len() ==> saves_shard(
                            #[trigger] reply.writes[j],
                            dir,
                            ids[j],
                            shard_entries(after.shards[ids[j] as int]),
                        )
                }
            }),
        },
        CommandView::DeleteAll => new == Map::<Seq<char>, Json>::empty() && (if snapshot_bytes(
            Map::<Seq<char>, Json>::empty(),
        ) is None {
            is_err_line(line) && reply.writes.len() == 0
        } else {
            &&& line == "OK\n"@
            &&& reply.writes.len() == n
            &&& forall|j: int|
                0 <= j < n ==> saves_shard(
                    #[trigger] reply.writes[j],
                    dir,
                    j as u32,
                    Map::<Seq<char>, Json>::empty(),
                )
        }),
        CommandView::Exit => quiet && line == "BYE\n"@,
        CommandView::Usage(u) => quiet && line == u.line_spec(),
        CommandView::Unknown => quiet && line == "ERR Unknown command\n"@,
    }
}

/// Turns the outcome of an operation that ends in one snapshot into a
/// reply.
fn snapshot_reply(r: Result<FileWrite, StoreError>) -> (reply: Reply)
    ensures
        match r {
            Ok(w) => reply.response@ == "OK\n"@ && reply.writes@ == seq![w],
            Err(e) => reply.response@ == err_line(e.message_spec()) && reply.writes.len() == 0,
        },
{
    match r {
        Ok(w) => {
            let mut writes: Vec<FileWrite> = Vec::new();
            writes.push(w);
            Reply { response: "OK\n".to_owned(), writes }
        },
        Err(e) => say(error_line(e.message().as_str())),
    }
}

/// Turns the outcome of an operation that ends in snapshots into a reply.
fn snapshots_reply(r: Result<Vec<FileWrite>, StoreError>) -> (reply: Reply)
    ensures
        match r {
            Ok(w) => reply.response@ == "OK\n"@ && reply.writes == w,
            Err(e) => reply.response@ == err_line(e.message_spec()) && reply.writes.len() == 0,
        },
{
    match r {
        Ok(writes) => Reply { response: "OK\n".to_owned(), writes },
        Err(e) => say(error_line(e.message().as_str())),
    }
}

impl HyperionDB {
    /// `GET`: the document under a key, or `NULL`.
    pub fn answer_get(&self, key: &str) -> (reply: Reply)
        requires
            self.wf(),
        ensures
            handled(CommandView::Get { key: key@ }, *self, *self, reply),
    {
        match self.get(key) {
            Some(v) => say(document_line(&v)),
            None => say("NULL\n".to_owned()),
        }
    }

    /// `LIST`: all documents.
    pub fn answer_list(&self) -> (reply: Reply)
        requires
            self.wf(),
        ensures
            handled(CommandView::List, *self, *self, reply),
    {
        let values = self.get_all_records();
        let ghost shown = jsons(values@);
        let reply = say(documents_line(values));
        assert(is_listing(shown, self.records(), self.records().dom()) && reply.response@
            == list_line(shown));
        reply
    }

    /// `QUERY`: the documents that a predicate selects, or why the text is
    /// no predicate.
    pub fn answer_query(&self, expr: &str) -> (reply: Reply)
        requires
            self.wf(),
        ensures
            handled(CommandView::Query { expr: expr@ }, *self, *self, reply),
    {
        let tokens = tokenize(expr);
        match parse_expression(tokens.as_slice()) {
            Ok((e, _)) => {
                let values = self.query_expression(&e);
                let ghost shown = jsons(values@);
                let reply = say(documents_line(values));
                assert(is_listing(shown, self.records(), eval(self.registry(), e@))
                    && reply.response@ == list_line(shown));
                reply
            },
            Err(err) => say(error_line(err.message())),
        }
    }

    /// `INSERT`: a write made durable by a snapshot.
    pub fn answer_insert(&mut self, key: String, json: &str) -> (reply: Reply)
        requires
            old(self).wf(),
        ensures
            final(self).wf(),
            final(self).shard_manager == old(self).shard_manager,
            final(self).indexed_fields == old(self).indexed_fields,
            handled(CommandView::Insert { key: key@, json: json@ }, *old(self), *final(self), reply),
    {
        match parse(json) {
            Ok(v) => {
                let r = self.insert(key, v);
                let reply = snapshot_reply(r);
                proof {
                    if r is Err {
                        assert(reply.response@ == err_line(r->Err_0.message_spec()));
                    }
                }
                reply
            },
            Err(e) => {
                let m = error_message(&e);
                let reply = say(error_line(m.as_str()));
                assert(reply.response@ == err_line(m@));
                reply
            },
        }
    }

    /// `INSERT_OR_UPDATE`: a write made durable by a line of the log.
    pub fn answer_insert_or_update(&mut self, key: String, json: &str) -> (reply: Reply)
        requires
            old(self).wf(),
        ensures
            final(self).wf(),
            final(self).shard_manager == old(self).shard_manager,
            final(self).indexed_fields == old(self).indexed_fields,
            handled(
                CommandView::InsertOrUpdate { key: key@, json: json@ },
                *old(self),
                *final(self),
                reply,
            ),
    {
        match parse(json) {
            Ok(v) => {
                let w = self.insert_or_update(key, v);
                let mut writes: Vec<FileWrite> = Vec::new();
                writes.push(w);
                Reply { response: "OK\n".to_owned(), writes }
            },
            Err(e) => {
                let m = error_message(&e);
                let reply = say(error_line(m.as_str()));
                assert(reply.response@ == err_line(m@));
                reply
            },
        }
    }

    /// `INSERT_OR_UPDATE_MANY`: a batch of writes, all or none.
    pub fn answer_insert_or_update_many(&mut self, json: &str) -> (reply: Reply)
        requires
            old(self).wf(),
        ensures
            final(self).wf(),
            final(self).shard_manager == old(self).shard_manager,
            final(self).indexed_fields == old(self).indexed_fields,
            handled(CommandView::InsertOrUpdateMany { json: json@ }, *old(self), *final(self), reply),
    {
        match read_batch(json) {
            Ok(data) => {
                let writes = self.insert_or_update_many(data);
                Reply { response: "OK\n".to_owned(), writes }
            },
            Err(m) => {
                let reply = say(error_line(m.as_str()));
                assert(reply.response@ == err_line(m@));
                reply
            },
        }
    }

    /// `DELETE`: one record goes, or the key is reported as not found.
    pub fn answer_delete(&mut self, key: String) -> (reply: Reply)
        requires
            old(self).wf(),
        ensures
            final(self).wf(),
            final(self).shard_manager == old(self).shard_manager,
            final(self).indexed_fields == old(self).indexed_fields,
            handled(CommandView::Delete { key: key@ }, *old(self), *final(self), reply),
    {
        let ghost before = self.records();
        let r = self.delete(key);
        let reply = snapshot_reply(r);
        proof {
            if r is Err {
                assert(reply.response@ == err_line(r->Err_0.message_spec()));
            }
            if !before.contains_key(key@) {
                assert(before.remove(key@) =~= before);
            }
        }
        reply
    }

    /// `DELETE_MANY`: the records of a batch of keys go.
    pub fn answer_delete_many(&mut self, json: &str) -> (reply: Reply)
        requires
            old(self).wf(),
        ensures
            final(self).wf(),
            final(self).shard_manager == old(self).shard_manager,
            final(self).indexed_fields == old(self).indexed_fields,
            handled(CommandView::DeleteMany { json: json@ }, *old(self), *final(self), reply),
    {
        match read_keys(json) {
            Ok(keys) => {
                let ghost names = views(keys@);
                let r = self.delete_many(keys);
                let ghost outcome = r;
                let reply = snapshots_reply(r);
                proof {
                    let ids = owners(
                        names,
                        self.shard_manager.num_shards,
                        names.len() as int,
                    );
                    match outcome {
                        Err(e) => {
                            assert(reply.response@ == err_line(e.message_spec()));
                            let j = choose|j: int|
                                0 <= j < ids.len() && self.refuses(#[trigger] ids[j] as int);
                            assert(0 <= j < ids.len() && self.refuses(ids[j] as int));
                        },
                        Ok(writes) => {
                            assert forall|j: int| 0 <= j < ids.len() implies !self.refuses(
                                #[trigger] ids[j] as int,
                            ) by {
                                assert(saves_shard(
                                    writes[j],
                                    self.shard_manager.data_dir@,
                                    ids[j],
                                    shard_entries(self.shards[ids[j] as int]),
                                ));
                            }
                            assert(reply.writes@ == writes@);
                        },
                    }
                }
                reply
            },
            Err(m) => {
                let reply = say(error_line(m.as_str()));
                assert(reply.response@ == err_line(m@));
                reply
            },
        }
    }

    /// `DELETE ALL`: every record goes.
    pub fn answer_delete_all(&mut self) -> (reply: Reply)
        requires
            old(self).wf(),
        ensures
            final(self).wf(),
            final(self).shard_manager == old(self).shard_manager,
            final(self).indexed_fields == old(self).indexed_fields,
            handled(CommandView::DeleteAll, *old(self), *final(self), reply),
    {
        let r = self.delete_all();
        let ghost outcome = r;
        let reply = snapshots_reply(r);
        proof {
            match outcome {
                Err(e) => {
                    assert(reply.response@ == err_line(e.message_spec()));
                },
                Ok(writes) => {
                    assert(saves_shard(
                        writes[0],
                        self.shard_manager.data_dir@,
                        0u32,
                        Map::<Seq<char>, Json>::empty(),
                    ));
                },
            }
        }
        reply
    }
}

/// Carries out a command.
pub fn execute(db: &mut HyperionDB, command: Command) -> (reply: Reply)
    requires
        old(db).wf(),
    ensures
        final(db).wf(),
        final(db).shard_manager == old(db).shard_manager,
        final(db).indexed_fields == old(db).indexed_fields,
        handled(command@, *old(db), *final(db), reply),
{
    match command {
        Command::Get { key } => db.answer_get(key.as_str()),
        Command::List => db.answer_list(),
        Command::Query { expr } => db.answer_query(expr.as_str()),
        Command::Insert { key, json } => db.answer_insert(key, json.as_str()),
        Command::InsertOrUpdate { key, json } => db.answer_insert_or_update(key, json.as_str()),
        Command::InsertOrUpdateMany { json } => db.answer_insert_or_update_many(json.as_str()),
        Command::Delete { key } => db.answer_delete(key),
        Command::DeleteMany { json } => db.answer_delete_many(json.as_str()),
        Command::DeleteAll => db.answer_delete_all(),
        Command::Exit => say("BYE\n".to_owned()),
        Command::Usage(u) => say(u.line().to_owned()),
        Command::Unknown => say("ERR Unknown command\n".to_owned()),
    }
}

/// Reads a line as a command and carries it out.
pub fn handle_command(db: &mut HyperionDB, command: String) -> (reply: Reply)
    requires
        old(db).wf(),
    ensures
        final(db).wf(),
        final(db).shard_manager == old(db).shard_manager,
        final(db).indexed_fields == old(db).indexed_fields,
        handled(command_of(command@), *old(db), *final(db), reply),
{
    execute(db, parse_command(command.as_str()))
}

} // verus!
