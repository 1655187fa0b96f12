//! The tools offered to the assistant: what each one checks, asks of the mail
//! client and answers.

pub mod answers;
pub mod bounds;
pub mod download;
pub mod draft;
pub mod found;
pub mod read;
pub mod search;
pub mod threads;
pub mod write;

use vstd::prelude::*;

use crate::config::AccountConfig;
use crate::imap_client::util::clean_imap_error;
use crate::imap_client::util::is_retryable_error;
use crate::imap_client::util::retryable_error;
use crate::imap_client::util::server_message;
use crate::json::item_views;
use crate::json::json_text;
use crate::json::lemma_arr_view;
use crate::json::Json;
use crate::json::JsonView;
use crate::json::Members;

verus! {

/// The answer that reports a failure: what the server or the tool said, and
/// whether the same call may succeed later.
pub open spec fn error_view(msg: Seq<char>) -> JsonView {
    JsonView::Obj(
        seq![
            ("error"@, JsonView::Str(server_message(msg))),
            ("retryable"@, JsonView::Bool(retryable_error(msg))),
        ],
    )
}

/// The failure answer as a value.
pub fn error_value(msg: &str) -> (j: Json)
    ensures
        j@ == error_view(msg@),
{
    let mut m = Members::new();
    let said = clean_imap_error(msg);
    m.put_str("error", said.as_str());
    m.put_bool("retryable", is_retryable_error(msg));
    proof {
        assert(m@ =~= error_view(msg@)->Obj_0);
    }
    m.done()
}

/// The failure answer as text.
pub fn error_json(msg: &str) -> (out: String)
    ensures
        out@ == json_text(error_view(msg@)),
{
    error_value(msg).to_text()
}

/// Asks for the accounts.
#[derive(Debug)]
pub struct ListAccountsRequest {}

/// An account in an answer.
pub open spec fn account_json(a: AccountConfig) -> JsonView {
    JsonView::Obj(
        seq![
            ("name"@, JsonView::Str(a.name@)),
            ("email"@, JsonView::Str(a.sender())),
            ("read_only"@, JsonView::Bool(a.read_only)),
        ],
    )
}

/// The answer with the accounts.
pub open spec fn accounts_answer(l: Seq<AccountConfig>) -> JsonView {
    JsonView::Arr(l.map_values(|a: AccountConfig| account_json(a)))
}

/// Answers a request for the accounts.
pub fn list_accounts_answer(accounts: &Vec<AccountConfig>) -> (j: Json)
    ensures
        j@ == accounts_answer(accounts@),
{
    let ghost want = accounts_answer(accounts@)->Arr_0;
    let mut items: Vec<Json> = Vec::new();
    let mut i: usize = 0;
    while i < accounts.len()
        invariant
            i <= accounts@.len(),
            want == accounts_answer(accounts@)->Arr_0,
            want.len() == accounts@.len(),
            item_views(items@) == want.take(i as int),
        decreases accounts@.len() - i,
    {
        let a = &accounts[i];
        let mut m = Members::new();
        m.put_str("name", a.name.as_str());
        m.put_str("email", a.sender_address());
        m.put_bool("read_only", a.read_only);
        proof {
            assert(m@ =~= account_json(*a)->Obj_0);
        }
        let ghost before = item_views(items@);
        let item = m.done();
        items.push(item);
        proof {
            assert(item_views(items@) =~= before.push(item@));
            assert(want.take(i as int + 1) =~= want.take(i as int).push(want[i as int]));
        }
        i += 1;
    }
    proof {
        assert(want.take(want.len() as int) =~= want);
        lemma_arr_view(items);
    }
    Json::Arr(items)
}

} // verus!
