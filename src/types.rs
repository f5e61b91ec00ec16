//! Plain data shared with the application.
use vstd::prelude::*;

verus! {

/// Delivery status of a message.
#[derive(Clone, Copy, Debug, PartialEq, Eq, Structural)]
pub enum MessageStatus {
    Sending,
    Sent,
    Delivered,
    Read,
    Failed,
}

/// A file attachment.
#[derive(Clone, Debug)]
pub struct Attachment {
    pub id: String,
    pub content_type: String,
    pub file_name: Option<String>,
    pub size: u64,
    pub digest: Vec<u8>,
    pub key: Vec<u8>,
    pub cdn_number: u32,
    pub upload_timestamp: i64,
    pub width: Option<u32>,
    pub height: Option<u32>,
    pub thumbnail: Option<Vec<u8>>,
}

/// A shared contact card.
#[derive(Clone, Debug)]
pub struct ContactInfo {
    pub name: String,
    pub phone_numbers: Vec<String>,
    pub emails: Vec<String>,
}

/// Role of a group member.
#[derive(Clone, Copy, Debug, PartialEq, Eq, Structural)]
pub enum GroupRole {
    Member,
    Administrator,
}

/// Who may change a group.
#[derive(Clone, Copy, Debug, PartialEq, Eq, Structural)]
pub struct GroupAccessControl {
    pub members_can_add_members: bool,
    pub members_can_edit_group_info: bool,
}

/// Typing indicator.
#[derive(Clone, Copy, Debug, PartialEq, Eq, Structural)]
pub enum TypingAction {
    Started,
    Stopped,
}

/// Service hosts.
pub struct SignalServers {
    pub service: &'static str,
    pub storage: &'static str,
    pub cdn: &'static str,
    pub cdn2: &'static str,
    pub cdn3: &'static str,
}

impl Default for SignalServers {
    fn default() -> (r: Self)
        ensures
            r.service@ == "https://chat.signal.org"@,
            r.storage@ == "https://storage.signal.org"@,
            r.cdn@ == "https://cdn.signal.org"@,
            r.cdn2@ == "https://cdn2.signal.org"@,
            r.cdn3@ == "https://cdn3.signal.org"@,
    {
        SignalServers {
            service: "https://chat.signal.org",
            storage: "https://storage.signal.org",
            cdn: "https://cdn.signal.org",
            cdn2: "https://cdn2.signal.org",
            cdn3: "https://cdn3.signal.org",
        }
    }
}

} // verus!
