use vstd::prelude::*;

use crate::messages::NetMessage;

verus! {

/// An invoice to create for a session: `sat` satoshis, under `label`, with
/// the description `desc`.
#[derive(Clone, Debug)]
pub struct InvoiceRequest {
    pub sat: i64,
    pub label: String,
    pub desc: String,
    pub dest: u64,
}

impl InvoiceRequest {
    pub fn new(dest: u64, sat: i64, label: String, desc: String) -> (r: InvoiceRequest)
        ensures
            r.dest == dest,
            r.sat == sat,
            r.label == label,
            r.desc == desc,
    {
        InvoiceRequest { sat, label, desc, dest }
    }
}

/// What `{:?}` writes for a string: the string quoted, with its special
/// characters escaped.
pub uninterp spec fn debug_text(s: Seq<char>) -> Seq<char>;

/// Calls `format!("{:?}", s)` on a `str`, whose `Debug` output is a function
/// of the string alone; it is named `debug_text` and not written out.
#[verifier::external_body]
fn debug_string(s: &str) -> (r: String)
    ensures
        r@ == debug_text(s@),
{
    format!("{:?}", s)
}

/// The amount of an invoice in millisatoshis.
pub fn invoice_msatoshi(req: &InvoiceRequest) -> (r: i64)
    requires
        i64::MIN <= req.sat * 1000 <= i64::MAX,
    ensures
        r == req.sat * 1000,
{
    req.sat * 1000
}

/// The alert a player gets when its invoice could not be created.
pub open spec fn invoice_failure_text(err: Seq<char>) -> Seq<char> {
    "Could not create invoice, try refreshing the page.\nError:\n"@ + debug_text(err)
}

/// The message for the session that asked for `req`, once the node has
/// answered: the invoice's payment request, or an alert with the error.
pub fn invoice_notice(req: &InvoiceRequest, outcome: Result<String, String>) -> (m: NetMessage)
    ensures
        match outcome {
            Ok(bolt11) => m matches NetMessage::Invoice(l, b) && l@ == req.label@ && b@ == bolt11@,
            Err(e) => m matches NetMessage::Alert(t) && t@ == invoice_failure_text(e@),
        },
{
    match outcome {
        Ok(bolt11) => NetMessage::Invoice(req.label.clone(), bolt11),
        Err(e) => {
            let mut msg = String::new();
            msg.append("Could not create invoice, try refreshing the page.\nError:\n");
            msg.append(debug_string(e.as_str()).as_str());
            NetMessage::Alert(msg)
        },
    }
}

} // verus!
