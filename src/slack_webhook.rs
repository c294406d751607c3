//! The notification sent to a chat webhook.

use vstd::prelude::*;
use vstd::string::StringExecFns;

verus! {

broadcast use vstd::string::group_string_axioms;

/// The heading put above a report that is sent as an alert.
pub const ALERT_HEADING: &'static str = "SUSPICIOUS ACTIVITY\n----------------------------\n";

/// Where notifications go.
pub struct SlackWebhook {
    webhook_url: String,
}

impl SlackWebhook {
    pub fn new(webhook_url: String) -> (r: SlackWebhook)
        ensures
            r.spec_url() == webhook_url@,
    {
        SlackWebhook { webhook_url }
    }

    pub closed spec fn spec_url(&self) -> Seq<char> {
        self.webhook_url@
    }

    pub fn webhook_url(&self) -> (r: &String)
        ensures
            r@ == self.spec_url(),
    {
        &self.webhook_url
    }
}

/// One message: its text.
pub struct Message {
    text: String,
}

impl Message {
    pub closed spec fn spec_text(&self) -> Seq<char> {
        self.text@
    }

    pub fn new(text: &str) -> (r: Message)
        ensures
            r.spec_text() == text@,
    {
        Message { text: text.to_owned() }
    }

    /// An alert carrying `report` under the alert heading.
    pub fn alert(report: &str) -> (r: Message)
        ensures
            r.spec_text() == ALERT_HEADING@ + report@,
    {
        let text = String::from_str(ALERT_HEADING).concat(report);
        Message { text }
    }

    pub fn text(&self) -> (r: &String)
        ensures
            r@ == self.spec_text(),
    {
        &self.text
    }
}

} // verus!
